use rust_ssh::client::{client_step, ClientAction};
use rust_ssh::database::Database;
use rust_ssh::filesys::create_tree;
use rust_ssh::protocol::{encode, AuthMethod, ClientState, TypedMessage};
use rust_ssh::session::{authenticate_client, process_command, Action, AuthFailure, AuthSuccess, Session, Step};

fn command(text: &str) -> TypedMessage {
    TypedMessage::Command { command: text.to_string() }
}

fn reply_text(step: Step) -> (String, bool) {
    match step {
        Step::Act(Action::Reply(TypedMessage::CommandResponse { response, success })) => (response, success),
        other => panic!("unexpected step {:?}", other),
    }
}

fn connected() -> Session {
    let mut s = Session::new();
    assert_eq!(s.auth_result(true), Action::Reply(TypedMessage::AuthResponse { success: true }));
    assert_eq!(s.state, ClientState::Connected);
    s
}

#[test]
fn registration_then_login() {
    let mut db = Database::new();
    let first = authenticate_client(&mut db, AuthMethod::Password, "u".to_string(), "s".to_string());
    assert_eq!(first, Ok(AuthSuccess::Registered));
    assert_eq!(db.users().len(), 1);
    assert_eq!(db.get_user("u").unwrap().pubkey, "");
    assert_ne!(db.get_user("u").unwrap().password, "s");
    let again = authenticate_client(&mut db, AuthMethod::Password, "u".to_string(), "s".to_string());
    assert_eq!(again, Ok(AuthSuccess::Verified));
    let wrong = authenticate_client(&mut db, AuthMethod::Password, "u".to_string(), "t".to_string());
    assert_eq!(wrong, Err(AuthFailure::WrongSecret));
    assert_eq!(db.users().len(), 1);
}

#[test]
fn second_first_login_does_not_register_again() {
    let mut db = Database::new();
    let a = authenticate_client(&mut db, AuthMethod::Password, "same".to_string(), "one".to_string());
    let digest = db.get_user("same").unwrap().password.clone();
    let b = authenticate_client(&mut db, AuthMethod::Password, "same".to_string(), "two".to_string());
    assert_eq!(a, Ok(AuthSuccess::Registered));
    assert_eq!(b, Err(AuthFailure::WrongSecret));
    assert_eq!(db.users().len(), 1);
    assert_eq!(db.get_user("same").unwrap().password, digest);
}

#[test]
fn certificate_login_is_refused() {
    let mut db = Database::new();
    let r = authenticate_client(&mut db, AuthMethod::Certificate, "u".to_string(), String::new());
    assert_eq!(r, Err(AuthFailure::Unsupported));
    assert!(db.get_user("u").is_none());
}

#[test]
fn three_failures_close_the_connection() {
    let mut s = Session::new();
    let no = TypedMessage::AuthResponse { success: false };
    assert_eq!(s.auth_result(false), Action::Reply(no.clone()));
    assert_eq!(s.state, ClientState::Authentication(1));
    assert_eq!(s.auth_result(false), Action::Reply(no.clone()));
    assert_eq!(s.state, ClientState::Authentication(2));
    assert_eq!(s.auth_result(false), Action::ReplyAndClose(no));
    assert_eq!(s.state, ClientState::Authentication(3));
    let tree = create_tree();
    let msg = TypedMessage::Auth {
        auth_method: AuthMethod::Password,
        username: "u".to_string(),
        secret: "p".to_string(),
    };
    assert_eq!(s.receive(&tree, msg), Step::Act(Action::Close));
}

#[test]
fn login_request_is_handed_to_the_store() {
    let tree = create_tree();
    let mut s = Session::new();
    let msg = TypedMessage::Auth {
        auth_method: AuthMethod::Password,
        username: "u".to_string(),
        secret: "p".to_string(),
    };
    let step = s.receive(&tree, msg);
    assert_eq!(
        step,
        Step::Authenticate {
            auth_method: AuthMethod::Password,
            username: "u".to_string(),
            secret: "p".to_string()
        }
    );
    assert_eq!(s.state, ClientState::Authentication(0));
}

#[test]
fn commands_before_login_close_the_connection() {
    let tree = create_tree();
    let mut s = Session::new();
    assert_eq!(s.receive(&tree, command("ls")), Step::Act(Action::Close));
    let mut t = Session::new();
    let tab = TypedMessage::TabComplete { stdin: "d".to_string() };
    assert_eq!(t.receive(&tree, tab), Step::Act(Action::Close));
}

#[test]
fn responses_and_second_logins_close_the_connection() {
    let tree = create_tree();
    let mut s = connected();
    let again = TypedMessage::Auth {
        auth_method: AuthMethod::Password,
        username: "u".to_string(),
        secret: "p".to_string(),
    };
    assert_eq!(s.receive(&tree, again), Step::Act(Action::Close));
    let mut t = connected();
    let resp = TypedMessage::AuthResponse { success: true };
    assert_eq!(t.receive(&tree, resp), Step::Act(Action::Close));
}

#[test]
fn navigation_through_the_session() {
    let tree = create_tree();
    let mut s = connected();
    assert_eq!(reply_text(s.receive(&tree, command("ls"))), ("dir1 dir2 dir3".to_string(), true));
    assert_eq!(
        reply_text(s.receive(&tree, command("cd dir1"))),
        ("Changed directory to: dir1".to_string(), true)
    );
    assert_eq!(reply_text(s.receive(&tree, command("pwd"))), ("/dir1".to_string(), true));
    reply_text(s.receive(&tree, command("cd ..")));
    assert_eq!(reply_text(s.receive(&tree, command("pwd"))), ("/".to_string(), true));
    assert_eq!(
        reply_text(s.receive(&tree, command("cd nofile"))),
        ("Directory not found".to_string(), false)
    );
    assert_eq!(reply_text(s.receive(&tree, command("pwd"))), ("/".to_string(), true));
    assert_eq!(s.receive(&tree, command("exit")), Step::Act(Action::Close));
}

#[test]
fn command_errors() {
    let tree = create_tree();
    let mut cwd: usize = 0;
    assert_eq!(process_command(&tree, &mut cwd, "cd"), Err("No directory specified".to_string()));
    assert_eq!(process_command(&tree, &mut cwd, "mkdir x"), Err("Unknown command".to_string()));
    assert_eq!(process_command(&tree, &mut cwd, ""), Err("Unknown command".to_string()));
    assert_eq!(process_command(&tree, &mut cwd, "   pwd  "), Ok("/".to_string()));
    assert_eq!(
        process_command(&tree, &mut cwd, "cd\tdir2 extra"),
        Ok("Changed directory to: dir2".to_string())
    );
    assert_eq!(process_command(&tree, &mut cwd, "ls"), Ok("file3.txt".to_string()));
    assert_eq!(process_command(&tree, &mut cwd, "pwd"), Ok("/dir2".to_string()));
}

#[test]
fn tab_completion_through_the_session() {
    let tree = create_tree();
    let mut s = connected();
    let tab = TypedMessage::TabComplete { stdin: "cd di".to_string() };
    let expected = vec!["dir1".to_string(), "dir2".to_string(), "dir3".to_string()];
    assert_eq!(
        s.receive(&tree, tab),
        Step::Act(Action::Reply(TypedMessage::TabCompleteResponse { completions: expected }))
    );
    let none = TypedMessage::TabComplete { stdin: "file".to_string() };
    assert_eq!(
        s.receive(&tree, none),
        Step::Act(Action::Reply(TypedMessage::TabCompleteResponse { completions: vec![] }))
    );
}

#[test]
fn sessions_keep_their_own_position() {
    let tree = create_tree();
    let mut a = connected();
    let mut b = connected();
    reply_text(a.receive(&tree, command("cd dir3")));
    assert_eq!(reply_text(a.receive(&tree, command("pwd"))), ("/dir3".to_string(), true));
    assert_eq!(reply_text(b.receive(&tree, command("pwd"))), ("/".to_string(), true));
    reply_text(b.receive(&tree, command("cd dir1")));
    assert_eq!(reply_text(a.receive(&tree, command("pwd"))), ("/dir3".to_string(), true));
}

#[test]
fn frames_that_are_no_message_are_passed_over() {
    let tree = create_tree();
    let mut s = connected();
    assert_eq!(s.receive_frame(&tree, "garbage"), Step::Act(Action::Ignore));
    let frame = encode(&command("pwd"));
    assert_eq!(reply_text(s.receive_frame(&tree, &frame)), ("/".to_string(), true));
}

#[test]
fn client_follows_the_replies() {
    let no = TypedMessage::AuthResponse { success: false };
    let (st, act) = client_step(ClientState::Authentication(0), no.clone());
    assert_eq!((st, act), (ClientState::Authentication(1), ClientAction::AuthFailed));
    let (_, act) = client_step(ClientState::Authentication(2), no);
    assert_eq!(act, ClientAction::TooManyAttempts);
    let yes = TypedMessage::AuthResponse { success: true };
    assert_eq!(
        client_step(ClientState::Authentication(1), yes),
        (ClientState::Connected, ClientAction::Authenticated)
    );
    let out = TypedMessage::CommandResponse { response: "/".to_string(), success: true };
    assert_eq!(client_step(ClientState::Connected, out).1, ClientAction::Output("/".to_string()));
    let err = TypedMessage::CommandResponse { response: "x".to_string(), success: false };
    assert_eq!(client_step(ClientState::Connected, err).1, ClientAction::Error("x".to_string()));
    let odd = TypedMessage::Command { command: "ls".to_string() };
    assert_eq!(client_step(ClientState::Connected, odd).1, ClientAction::Unexpected);
}
