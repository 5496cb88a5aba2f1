//! The wire protocol: the message set, the session states, and the codec.
//!
//! A message travels as one line of compact JSON in the externally tagged layout
//! (`{"Command":{"command":"ls"}}`), fields in declaration order, strings escaped as
//! JSON requires. `decode` accepts exactly the texts that `encode` produces.
use vstd::prelude::*;
use vstd::string::StringExecFns;
use crate::text::{push_char, chars_of, string_of, views};

verus! {

#[derive(Debug, Clone, Copy, PartialEq, Eq, Structural)]
pub enum ClientState {
    /// Not yet authenticated; the number of failed attempts so far.
    Authentication(i32),
    Connected,
}

#[derive(Debug, Clone, Copy, PartialEq, Eq, Structural)]
pub enum AuthMethod {
    Password,
    /// Accepted on the wire; the server does not implement it and refuses it.
    Certificate,
}

/// Requests travel from client to server, responses back.
#[derive(Debug, Clone, PartialEq)]
pub enum TypedMessage {
    Command { command: String },
    CommandResponse { response: String, success: bool },
    TabComplete { stdin: String },
    TabCompleteResponse { completions: Vec<String> },
    Auth { auth_method: AuthMethod, username: String, secret: String },
    AuthResponse { success: bool },
}

pub enum MessageView {
    Command { command: Seq<char> },
    CommandResponse { response: Seq<char>, success: bool },
    TabComplete { stdin: Seq<char> },
    TabCompleteResponse { completions: Seq<Seq<char>> },
    Auth { auth_method: AuthMethod, username: Seq<char>, secret: Seq<char> },
    AuthResponse { success: bool },
}

impl View for TypedMessage {
    type V = MessageView;

    open spec fn view(&self) -> MessageView {
        match self {
            TypedMessage::Command { command } => MessageView::Command { command: command@ },
            TypedMessage::CommandResponse { response, success } => MessageView::CommandResponse {
                response: response@,
                success: *success,
            },
            TypedMessage::TabComplete { stdin } => MessageView::TabComplete { stdin: stdin@ },
            TypedMessage::TabCompleteResponse { completions } => MessageView::TabCompleteResponse {
                completions: views(completions@),
            },
            TypedMessage::Auth { auth_method, username, secret } => MessageView::Auth {
                auth_method: *auth_method,
                username: username@,
                secret: secret@,
            },
            TypedMessage::AuthResponse { success } => MessageView::AuthResponse {
                success: *success,
            },
        }
    }
}

/// A lowercase hexadecimal digit.
pub open spec fn hex_digit(d: u32) -> char {
    if d < 10 {
        (d + 48) as char
    } else {
        (d + 87) as char
    }
}

/// The escape letter JSON has for `c`, if it has one.
pub open spec fn short_escape(c: char) -> Option<char> {
    if c == '"' {
        Some('"')
    } else if c == '\\' {
        Some('\\')
    } else if c == '\u{8}' {
        Some('b')
    } else if c == '\u{c}' {
        Some('f')
    } else if c == '\n' {
        Some('n')
    } else if c == '\r' {
        Some('r')
    } else if c == '\t' {
        Some('t')
    } else {
        None
    }
}

/// How one character is written inside a JSON string.
pub open spec fn escape_char(c: char) -> Seq<char> {
    match short_escape(c) {
        Some(e) => seq!['\\', e],
        None => if (c as u32) < 0x20 {
            seq!['\\', 'u', '0', '0', hex_digit((c as u32) / 16), hex_digit((c as u32) % 16)]
        } else {
            seq![c]
        },
    }
}

pub open spec fn escaped(s: Seq<char>) -> Seq<char>
    decreases s.len(),
{
    if s.len() == 0 {
        Seq::empty()
    } else {
        escaped(s.drop_last()) + escape_char(s.last())
    }
}

/// A JSON string literal holding `s`.
pub open spec fn quoted(s: Seq<char>) -> Seq<char> {
    seq!['"'] + escaped(s) + seq!['"']
}

/// The comma-separated string literals of `l`.
pub open spec fn items(l: Seq<Seq<char>>) -> Seq<char>
    decreases l.len(),
{
    if l.len() == 0 {
        Seq::empty()
    } else if l.len() == 1 {
        quoted(l[0])
    } else {
        items(l.drop_last()) + seq![','] + quoted(l.last())
    }
}

pub open spec fn bool_text(b: bool) -> Seq<char> {
    if b {
        "true"@
    } else {
        "false"@
    }
}

pub open spec fn method_text(m: AuthMethod) -> Seq<char> {
    match m {
        AuthMethod::Password => "\"Password\""@,
        AuthMethod::Certificate => "\"Certificate\""@,
    }
}

/// The text of a message on the wire.
pub open spec fn encoding(m: MessageView) -> Seq<char> {
    match m {
        MessageView::Command { command } => "{\"Command\":{\"command\":"@ + quoted(command)
            + "}}"@,
        MessageView::CommandResponse { response, success } => "{\"CommandResponse\":{\"response\":"@
            + quoted(response) + ",\"success\":"@ + bool_text(success) + "}}"@,
        MessageView::TabComplete { stdin } => "{\"TabComplete\":{\"stdin\":"@ + quoted(stdin)
            + "}}"@,
        MessageView::TabCompleteResponse {
            completions,
        } => "{\"TabCompleteResponse\":{\"completions\":"@ + seq!['['] + items(completions) + seq![
            ']',
        ] + "}}"@,
        MessageView::Auth { auth_method, username, secret } => "{\"Auth\":{\"auth_method\":"@
            + method_text(auth_method) + ",\"username\":"@ + quoted(username) + ",\"secret\":"@
            + quoted(secret) + "}}"@,
        MessageView::AuthResponse { success } => "{\"AuthResponse\":{\"success\":"@ + bool_text(
            success,
        ) + "}}"@,
    }
}

fn push_escaped(out: &mut String, c: char)
    ensures
        final(out)@ == old(out)@ + escape_char(c),
{
    let u = c as u32;
    if c == '"' {
        push_char(out, '\\');
        push_char(out, '"');
    } else if c == '\\' {
        push_char(out, '\\');
        push_char(out, '\\');
    } else if u == 8 {
        push_char(out, '\\');
        push_char(out, 'b');
    } else if u == 12 {
        push_char(out, '\\');
        push_char(out, 'f');
    } else if c == '\n' {
        push_char(out, '\\');
        push_char(out, 'n');
    } else if c == '\r' {
        push_char(out, '\\');
        push_char(out, 'r');
    } else if c == '\t' {
        push_char(out, '\\');
        push_char(out, 't');
    } else if u < 0x20 {
        push_char(out, '\\');
        push_char(out, 'u');
        push_char(out, '0');
        push_char(out, '0');
        push_char(out, hex_char(u / 16));
        push_char(out, hex_char(u % 16));
    } else {
        push_char(out, c);
    }
    proof {
        assert(final(out)@ =~= old(out)@ + escape_char(c));
    }
}

fn hex_char(d: u32) -> (r: char)
    requires
        d < 16,
    ensures
        r == hex_digit(d),
{
    if d < 10 {
        ((d + 48) as u8) as char
    } else {
        ((d + 87) as u8) as char
    }
}

/// Appends the JSON string literal of `s`.
fn push_quoted(out: &mut String, s: &str)
    ensures
        final(out)@ == old(out)@ + quoted(s@),
{
    let cs = chars_of(s);
    push_char(out, '"');
    let ghost start = out@;
    let mut i: usize = 0;
    while i < cs.len()
        invariant
            i <= cs@.len(),
            cs@ == s@,
            start == old(out)@.push('"'),
            out@ == start + escaped(cs@.take(i as int)),
        decreases cs.len() - i,
    {
        proof {
            assert(cs@.take(i + 1).drop_last() =~= cs@.take(i as int));
        }
        push_escaped(out, cs[i]);
        proof {
            assert(out@ =~= start + escaped(cs@.take(i + 1)));
        }
        i = i + 1;
    }
    push_char(out, '"');
    proof {
        assert(cs@.take(i as int) =~= s@);
        assert(out@ =~= old(out)@ + quoted(s@));
    }
}

fn push_bool(out: &mut String, b: bool)
    ensures
        final(out)@ == old(out)@ + bool_text(b),
{
    if b {
        out.append("true");
    } else {
        out.append("false");
    }
}

/// The wire text of `m`.
pub fn encode(m: &TypedMessage) -> (r: String)
    ensures
        r@ == encoding(m@),
{
    let mut out = String::new();
    match m {
        TypedMessage::Command { command } => {
            out.append("{\"Command\":{\"command\":");
            push_quoted(&mut out, command.as_str());
            out.append("}}");
        },
        TypedMessage::CommandResponse { response, success } => {
            out.append("{\"CommandResponse\":{\"response\":");
            push_quoted(&mut out, response.as_str());
            out.append(",\"success\":");
            push_bool(&mut out, *success);
            out.append("}}");
        },
        TypedMessage::TabComplete { stdin } => {
            out.append("{\"TabComplete\":{\"stdin\":");
            push_quoted(&mut out, stdin.as_str());
            out.append("}}");
        },
        TypedMessage::TabCompleteResponse { completions } => {
            out.append("{\"TabCompleteResponse\":{\"completions\":");
            push_char(&mut out, '[');
            let ghost start = out@;
            let mut i: usize = 0;
            while i < completions.len()
                invariant
                    i <= completions@.len(),
                    out@ == start + items(views(completions@).take(i as int)),
                decreases completions.len() - i,
            {
                proof {
                    let l = views(completions@).take(i + 1);
                    assert(l.drop_last() =~= views(completions@).take(i as int));
                    assert(l.last() == completions@[i as int]@);
                }
                if i > 0 {
                    push_char(&mut out, ',');
                }
                push_quoted(&mut out, completions[i].as_str());
                proof {
                    let l = views(completions@).take(i + 1);
                    if i == 0 {
                        assert(items(views(completions@).take(0)) =~= Seq::<char>::empty());
                    }
                    assert(out@ =~= start + items(l));
                }
                i = i + 1;
            }
            proof {
                assert(views(completions@).take(i as int) =~= views(completions@));
            }
            push_char(&mut out, ']');
            out.append("}}");
        },
        TypedMessage::Auth { auth_method, username, secret } => {
            out.append("{\"Auth\":{\"auth_method\":");
            match auth_method {
                AuthMethod::Password => out.append("\"Password\""),
                AuthMethod::Certificate => out.append("\"Certificate\""),
            }
            out.append(",\"username\":");
            push_quoted(&mut out, username.as_str());
            out.append(",\"secret\":");
            push_quoted(&mut out, secret.as_str());
            out.append("}}");
        },
        TypedMessage::AuthResponse { success } => {
            out.append("{\"AuthResponse\":{\"success\":");
            push_bool(&mut out, *success);
            out.append("}}");
        },
    }
    proof {
        assert(out@ =~= encoding(m@));
    }
    out
}

/// The text that opens the encoding of a message of the same kind as `m`.
pub open spec fn header(m: MessageView) -> Seq<char> {
    match m {
        MessageView::Command { .. } => "{\"Command\":{\"command\":"@,
        MessageView::CommandResponse { .. } => "{\"CommandResponse\":{\"response\":"@,
        MessageView::TabComplete { .. } => "{\"TabComplete\":{\"stdin\":"@,
        MessageView::TabCompleteResponse { .. } => "{\"TabCompleteResponse\":{\"completions\":"@,
        MessageView::Auth { .. } => "{\"Auth\":{\"auth_method\":"@,
        MessageView::AuthResponse { .. } => "{\"AuthResponse\":{\"success\":"@,
    }
}

/// Four characters that tell the headers apart.
pub open spec fn signature(h: Seq<char>) -> (char, char, char, char) {
    (h[2], h[6], h[9], h[13])
}

pub open spec fn kind(m: MessageView) -> int {
    match m {
        MessageView::Command { .. } => 0,
        MessageView::CommandResponse { .. } => 1,
        MessageView::TabComplete { .. } => 2,
        MessageView::TabCompleteResponse { .. } => 3,
        MessageView::Auth { .. } => 4,
        MessageView::AuthResponse { .. } => 5,
    }
}

proof fn lemma_headers(m: MessageView, n: MessageView)
    ensures
        header(m).len() > 13,
        encoding(m).len() > header(m).len(),
        encoding(m).take(header(m).len() as int) == header(m),
        signature(header(m)) == signature(header(n)) ==> kind(m) == kind(n),
{
    reveal_strlit("{\"Command\":{\"command\":");
    reveal_strlit("{\"CommandResponse\":{\"response\":");
    reveal_strlit("{\"TabComplete\":{\"stdin\":");
    reveal_strlit("{\"TabCompleteResponse\":{\"completions\":");
    reveal_strlit("{\"Auth\":{\"auth_method\":");
    reveal_strlit("{\"AuthResponse\":{\"success\":");
    reveal_strlit("}}");
    match m {
        MessageView::Command { command } => {
            assert(encoding(m) == header(m) + (quoted(command) + "}}"@));
        },
        MessageView::CommandResponse { response, success } => {
            assert(encoding(m) == header(m) + (quoted(response) + ",\"success\":"@ + bool_text(
                success,
            ) + "}}"@));
        },
        MessageView::TabComplete { stdin } => {
            assert(encoding(m) == header(m) + (quoted(stdin) + "}}"@));
        },
        MessageView::TabCompleteResponse { completions } => {
            assert(encoding(m) == header(m) + (seq!['['] + items(completions) + seq![']']
                + "}}"@));
        },
        MessageView::Auth { auth_method, username, secret } => {
            assert(encoding(m) == header(m) + (method_text(auth_method) + ",\"username\":"@
                + quoted(username) + ",\"secret\":"@ + quoted(secret) + "}}"@));
        },
        MessageView::AuthResponse { success } => {
            assert(encoding(m) == header(m) + (bool_text(success) + "}}"@));
        },
    }
}

proof fn lemma_escaped_concat(a: Seq<char>, b: Seq<char>)
    ensures
        escaped(a + b) == escaped(a) + escaped(b),
    decreases b.len(),
{
    if b.len() == 0 {
        assert(a + b =~= a);
        assert(escaped(a) + escaped(b) =~= escaped(a));
    } else {
        lemma_escaped_concat(a, b.drop_last());
        assert((a + b).drop_last() =~= a + b.drop_last());
        assert(escaped(a + b) =~= escaped(a) + escaped(b));
    }
}

proof fn lemma_escape_char_shape(c: char)
    ensures
        escape_char(c).len() >= 1,
        escape_char(c)[0] != '"',
        escape_char(c)[0] != '\\' ==> escape_char(c) == seq![c],
        escape_char(c)[0] == '\\' ==> escape_char(c).len() >= 2,
{
}

proof fn lemma_hex_digit(a: u32, b: u32)
    requires
        a < 16,
        b < 16,
        hex_digit(a) == hex_digit(b),
    ensures
        a == b,
{
    assert(hex_digit(a) as u32 == if a < 10 { a + 48 } else { a + 87 });
    assert(hex_digit(b) as u32 == if b < 10 { b + 48 } else { b + 87 });
}

proof fn lemma_escape_prefix_free(c1: char, c2: char, x1: Seq<char>, x2: Seq<char>)
    requires
        escape_char(c1) + x1 == escape_char(c2) + x2,
    ensures
        c1 == c2,
{
    let e1 = escape_char(c1);
    let e2 = escape_char(c2);
    lemma_escape_char_shape(c1);
    lemma_escape_char_shape(c2);
    assert((e1 + x1)[0] == e1[0]);
    assert((e2 + x2)[0] == e2[0]);
    if e1[0] == '\\' {
        assert((e1 + x1)[1] == e1[1]);
        assert((e2 + x2)[1] == e2[1]);
        if e1[1] == 'u' {
            assert((e1 + x1)[4] == e1[4]);
            assert((e2 + x2)[4] == e2[4]);
            assert((e1 + x1)[5] == e1[5]);
            assert((e2 + x2)[5] == e2[5]);
            lemma_hex_digit((c1 as u32) / 16, (c2 as u32) / 16);
            lemma_hex_digit((c1 as u32) % 16, (c2 as u32) % 16);
            assert(c1 as u32 == c2 as u32);
        }
    }
}

proof fn lemma_escaped_unique(s1: Seq<char>, s2: Seq<char>, r1: Seq<char>, r2: Seq<char>)
    requires
        escaped(s1) + seq!['"'] + r1 == escaped(s2) + seq!['"'] + r2,
    ensures
        s1 == s2,
        r1 == r2,
    decreases s1.len(),
{
    let x1 = escaped(s1) + seq!['"'] + r1;
    if s1.len() > 0 {
        lemma_escaped_concat(seq![s1[0]], s1.drop_first());
        assert(seq![s1[0]] + s1.drop_first() =~= s1);
        lemma_escaped_single(s1[0]);
        lemma_escape_char_shape(s1[0]);
    }
    if s2.len() > 0 {
        lemma_escaped_concat(seq![s2[0]], s2.drop_first());
        assert(seq![s2[0]] + s2.drop_first() =~= s2);
        lemma_escaped_single(s2[0]);
        lemma_escape_char_shape(s2[0]);
    }
    if s1.len() == 0 && s2.len() == 0 {
        assert(escaped(s1) + seq!['"'] + r1 =~= seq!['"'] + r1);
        assert(escaped(s2) + seq!['"'] + r2 =~= seq!['"'] + r2);
        assert(r1 =~= (seq!['"'] + r1).drop_first());
        assert(r2 =~= (seq!['"'] + r2).drop_first());
        assert(s1 =~= s2);
    } else if s1.len() == 0 {
        assert(x1[0] == '"');
        assert(x1 =~= escape_char(s2[0]) + (escaped(s2.drop_first()) + seq!['"'] + r2));
    } else if s2.len() == 0 {
        assert(x1 =~= escape_char(s1[0]) + (escaped(s1.drop_first()) + seq!['"'] + r1));
        assert((escaped(s2) + seq!['"'] + r2)[0] == '"');
    } else {
        let y1 = escaped(s1.drop_first()) + seq!['"'] + r1;
        let y2 = escaped(s2.drop_first()) + seq!['"'] + r2;
        assert(x1 =~= escape_char(s1[0]) + y1);
        assert(escaped(s2) + seq!['"'] + r2 =~= escape_char(s2[0]) + y2);
        lemma_escape_prefix_free(s1[0], s2[0], y1, y2);
        lemma_cancel(escape_char(s1[0]), y1, y2);
        lemma_escaped_unique(s1.drop_first(), s2.drop_first(), r1, r2);
        assert(s1 =~= seq![s1[0]] + s1.drop_first());
        assert(s2 =~= seq![s2[0]] + s2.drop_first());
    }
}

proof fn lemma_escaped_single(c: char)
    ensures
        escaped(seq![c]) == escape_char(c),
{
    let s = seq![c];
    assert(s.drop_last() =~= Seq::<char>::empty());
    assert(s.last() == c);
    assert(escaped(s.drop_last()) == Seq::<char>::empty());
    assert(escaped(s) == escaped(s.drop_last()) + escape_char(s.last()));
    assert(escaped(s) =~= escape_char(c));
}

proof fn lemma_cancel(a: Seq<char>, b: Seq<char>, c: Seq<char>)
    requires
        a + b == a + c,
    ensures
        b == c,
{
    assert(b =~= (a + b).subrange(a.len() as int, (a + b).len() as int));
    assert(c =~= (a + c).subrange(a.len() as int, (a + c).len() as int));
}

proof fn lemma_quoted_unique(s1: Seq<char>, s2: Seq<char>, r1: Seq<char>, r2: Seq<char>)
    requires
        quoted(s1) + r1 == quoted(s2) + r2,
    ensures
        s1 == s2,
        r1 == r2,
{
    assert(quoted(s1) + r1 =~= seq!['"'] + (escaped(s1) + seq!['"'] + r1));
    assert(quoted(s2) + r2 =~= seq!['"'] + (escaped(s2) + seq!['"'] + r2));
    lemma_cancel(seq!['"'], escaped(s1) + seq!['"'] + r1, escaped(s2) + seq!['"'] + r2);
    lemma_escaped_unique(s1, s2, r1, r2);
}

proof fn lemma_items_front(l: Seq<Seq<char>>)
    requires
        l.len() >= 2,
    ensures
        items(l) == quoted(l[0]) + seq![','] + items(l.drop_first()),
    decreases l.len(),
{
    if l.len() == 2 {
        assert(l.drop_last() =~= seq![l[0]]);
        assert(l.drop_first() =~= seq![l[1]]);
        assert(items(l.drop_last()) == quoted(l[0]));
        assert(items(l.drop_first()) == quoted(l[1]));
        assert(items(l) =~= quoted(l[0]) + seq![','] + items(l.drop_first()));
    } else {
        lemma_items_front(l.drop_last());
        assert(l.drop_last().drop_first() =~= l.drop_first().drop_last());
        assert(l.drop_first().last() == l.last());
        assert(items(l.drop_first()) == items(l.drop_first().drop_last()) + seq![','] + quoted(
            l.last(),
        ));
        assert(items(l) =~= quoted(l[0]) + seq![','] + items(l.drop_first()));
    }
}

#[verifier::rlimit(40)]
proof fn lemma_items_unique(l1: Seq<Seq<char>>, l2: Seq<Seq<char>>, r1: Seq<char>, r2: Seq<char>)
    requires
        items(l1) + seq![']'] + r1 == items(l2) + seq![']'] + r2,
    ensures
        l1 == l2,
        r1 == r2,
    decreases l1.len(),
{
    let x1 = items(l1) + seq![']'] + r1;
    let x2 = items(l2) + seq![']'] + r2;
    if l1.len() == 0 && l2.len() == 0 {
        assert(r1 =~= x1.drop_first());
        assert(r2 =~= x2.drop_first());
        assert(l1 =~= l2);
    } else if l1.len() == 0 || l2.len() == 0 {
        if l1.len() > 1 {
            lemma_items_front(l1);
        }
        if l2.len() > 1 {
            lemma_items_front(l2);
        }
        if l1.len() == 0 {
            assert(x1 =~= seq![']'] + r1);
            assert(x2 =~= quoted(l2[0]) + x2.subrange(quoted(l2[0]).len() as int, x2.len() as int));
            assert(x2[0] == '"');
        } else {
            assert(x2 =~= seq![']'] + r2);
            assert(x1 =~= quoted(l1[0]) + x1.subrange(quoted(l1[0]).len() as int, x1.len() as int));
            assert(x1[0] == '"');
        }
    } else {
        let y1 = if l1.len() == 1 {
            seq![']'] + r1
        } else {
            seq![','] + items(l1.drop_first()) + seq![']'] + r1
        };
        let y2 = if l2.len() == 1 {
            seq![']'] + r2
        } else {
            seq![','] + items(l2.drop_first()) + seq![']'] + r2
        };
        if l1.len() > 1 {
            lemma_items_front(l1);
        }
        if l2.len() > 1 {
            lemma_items_front(l2);
        }
        assert(x1 =~= quoted(l1[0]) + y1);
        assert(x2 =~= quoted(l2[0]) + y2);
        lemma_quoted_unique(l1[0], l2[0], y1, y2);
        assert(y1[0] == y2[0]);
        if l1.len() == 1 {
            assert(r1 =~= y1.drop_first());
            assert(r2 =~= y2.drop_first());
            assert(l1 =~= l2);
        } else {
            assert(y1.drop_first() =~= items(l1.drop_first()) + seq![']'] + r1);
            assert(y2.drop_first() =~= items(l2.drop_first()) + seq![']'] + r2);
            lemma_items_unique(l1.drop_first(), l2.drop_first(), r1, r2);
            assert(l1 =~= seq![l1[0]] + l1.drop_first());
            assert(l2 =~= seq![l2[0]] + l2.drop_first());
        }
    }
}

proof fn lemma_bool_text(a: bool, b: bool, x: Seq<char>, y: Seq<char>)
    requires
        bool_text(a) + x == bool_text(b) + y,
    ensures
        a == b,
{
    reveal_strlit("true");
    reveal_strlit("false");
    assert((bool_text(a) + x)[0] == bool_text(a)[0]);
    assert((bool_text(b) + y)[0] == bool_text(b)[0]);
}

proof fn lemma_same_kind(m1: MessageView, m2: MessageView)
    requires
        encoding(m1) == encoding(m2),
    ensures
        kind(m1) == kind(m2),
        header(m1) == header(m2),
{
    lemma_headers(m1, m2);
    lemma_headers(m2, m1);
    let e = encoding(m1);
    let h1 = header(m1);
    let h2 = header(m2);
    assert(e.take(h1.len() as int)[2] == e[2] && e.take(h1.len() as int)[6] == e[6] && e.take(
        h1.len() as int,
    )[9] == e[9] && e.take(h1.len() as int)[13] == e[13]);
    assert(e.take(h2.len() as int)[2] == e[2] && e.take(h2.len() as int)[6] == e[6] && e.take(
        h2.len() as int,
    )[9] == e[9] && e.take(h2.len() as int)[13] == e[13]);
    assert(signature(h1) == signature(h2));
}

proof fn lemma_response_fields(a: Seq<char>, x: bool, b: Seq<char>, y: bool)
    requires
        quoted(a) + (",\"success\":"@ + (bool_text(x) + "}}"@)) == quoted(b) + (",\"success\":"@ + (
        bool_text(y) + "}}"@)),
    ensures
        a == b,
        x == y,
{
    let t = ",\"success\":"@;
    lemma_quoted_unique(a, b, t + (bool_text(x) + "}}"@), t + (bool_text(y) + "}}"@));
    lemma_cancel(t, bool_text(x) + "}}"@, bool_text(y) + "}}"@);
    lemma_bool_text(x, y, "}}"@, "}}"@);
}

proof fn lemma_auth_fields(
    ma: AuthMethod,
    ua: Seq<char>,
    sa: Seq<char>,
    mb: AuthMethod,
    ub: Seq<char>,
    sb: Seq<char>,
)
    requires
        method_text(ma) + (",\"username\":"@ + (quoted(ua) + (",\"secret\":"@ + (quoted(sa) + "}}"@))))
            == method_text(mb) + (",\"username\":"@ + (quoted(ub) + (",\"secret\":"@ + (quoted(sb)
            + "}}"@)))),
    ensures
        ma == mb,
        ua == ub,
        sa == sb,
{
    reveal_strlit("\"Password\"");
    reveal_strlit("\"Certificate\"");
    let tu = ",\"username\":"@;
    let ts = ",\"secret\":"@;
    let ra = tu + (quoted(ua) + (ts + (quoted(sa) + "}}"@)));
    let rb = tu + (quoted(ub) + (ts + (quoted(sb) + "}}"@)));
    assert((method_text(ma) + ra)[1] == method_text(ma)[1]);
    assert((method_text(mb) + rb)[1] == method_text(mb)[1]);
    assert(ma == mb);
    lemma_cancel(method_text(ma), ra, rb);
    lemma_cancel(tu, quoted(ua) + (ts + (quoted(sa) + "}}"@)), quoted(ub) + (ts + (quoted(sb)
        + "}}"@)));
    lemma_quoted_unique(ua, ub, ts + (quoted(sa) + "}}"@), ts + (quoted(sb) + "}}"@));
    lemma_cancel(ts, quoted(sa) + "}}"@, quoted(sb) + "}}"@);
    lemma_quoted_unique(sa, sb, "}}"@, "}}"@);
}

proof fn lemma_injective_string_field(m1: MessageView, m2: MessageView, a: Seq<char>, b: Seq<char>)
    requires
        encoding(m1) == encoding(m2),
        header(m1) == header(m2),
        encoding(m1) == header(m1) + (quoted(a) + "}}"@),
        encoding(m2) == header(m2) + (quoted(b) + "}}"@),
    ensures
        a == b,
{
    lemma_cancel(header(m1), quoted(a) + "}}"@, quoted(b) + "}}"@);
    lemma_quoted_unique(a, b, "}}"@, "}}"@);
}

proof fn lemma_injective_response(m1: MessageView, m2: MessageView)
    requires
        encoding(m1) == encoding(m2),
        header(m1) == header(m2),
        m1 is CommandResponse,
        m2 is CommandResponse,
    ensures
        m1 == m2,
{
    let a = m1->CommandResponse_response;
    let x = m1->CommandResponse_success;
    let b = m2->CommandResponse_response;
    let y = m2->CommandResponse_success;
    let h = header(m1);
    let t = ",\"success\":"@;
    assert(encoding(m1) =~= h + (quoted(a) + (t + (bool_text(x) + "}}"@))));
    assert(encoding(m2) =~= h + (quoted(b) + (t + (bool_text(y) + "}}"@))));
    lemma_cancel(h, quoted(a) + (t + (bool_text(x) + "}}"@)), quoted(b) + (t + (bool_text(y)
        + "}}"@)));
    lemma_response_fields(a, x, b, y);
}

proof fn lemma_injective_completions(m1: MessageView, m2: MessageView)
    requires
        encoding(m1) == encoding(m2),
        header(m1) == header(m2),
        m1 is TabCompleteResponse,
        m2 is TabCompleteResponse,
    ensures
        m1 == m2,
{
    let a = m1->TabCompleteResponse_completions;
    let b = m2->TabCompleteResponse_completions;
    let h = header(m1);
    let o = seq!['['];
    assert(encoding(m1) =~= h + (o + (items(a) + seq![']'] + "}}"@)));
    assert(encoding(m2) =~= h + (o + (items(b) + seq![']'] + "}}"@)));
    lemma_cancel(h, o + (items(a) + seq![']'] + "}}"@), o + (items(b) + seq![']'] + "}}"@));
    lemma_cancel(o, items(a) + seq![']'] + "}}"@, items(b) + seq![']'] + "}}"@);
    lemma_items_unique(a, b, "}}"@, "}}"@);
}

#[verifier::rlimit(40)]
proof fn lemma_injective_auth(m1: MessageView, m2: MessageView)
    requires
        encoding(m1) == encoding(m2),
        header(m1) == header(m2),
        m1 is Auth,
        m2 is Auth,
    ensures
        m1 == m2,
{
    let ma = m1->Auth_auth_method;
    let ua = m1->Auth_username;
    let sa = m1->Auth_secret;
    let mb = m2->Auth_auth_method;
    let ub = m2->Auth_username;
    let sb = m2->Auth_secret;
    let h = header(m1);
    let tu = ",\"username\":"@;
    let ts = ",\"secret\":"@;
    let ra = tu + (quoted(ua) + (ts + (quoted(sa) + "}}"@)));
    let rb = tu + (quoted(ub) + (ts + (quoted(sb) + "}}"@)));
    assert(encoding(m1) =~= h + (method_text(ma) + ra));
    assert(encoding(m2) =~= h + (method_text(mb) + rb));
    lemma_cancel(h, method_text(ma) + ra, method_text(mb) + rb);
    lemma_auth_fields(ma, ua, sa, mb, ub, sb);
}

proof fn lemma_injective_auth_response(m1: MessageView, m2: MessageView)
    requires
        encoding(m1) == encoding(m2),
        header(m1) == header(m2),
        m1 is AuthResponse,
        m2 is AuthResponse,
    ensures
        m1 == m2,
{
    let x = m1->AuthResponse_success;
    let y = m2->AuthResponse_success;
    let h = header(m1);
    assert(encoding(m1) =~= h + (bool_text(x) + "}}"@));
    assert(encoding(m2) =~= h + (bool_text(y) + "}}"@));
    lemma_cancel(h, bool_text(x) + "}}"@, bool_text(y) + "}}"@);
    lemma_bool_text(x, y, "}}"@, "}}"@);
}

/// Different messages have different encodings, so decoding an encoding gives back
/// the message that was encoded.
pub proof fn lemma_encoding_injective(m1: MessageView, m2: MessageView)
    requires
        encoding(m1) == encoding(m2),
    ensures
        m1 == m2,
{
    lemma_same_kind(m1, m2);
    match m1 {
        MessageView::Command { command: a } => {
            let b = m2->Command_command;
            assert(encoding(m1) =~= header(m1) + (quoted(a) + "}}"@));
            assert(encoding(m2) =~= header(m2) + (quoted(b) + "}}"@));
            lemma_injective_string_field(m1, m2, a, b);
        },
        MessageView::CommandResponse { .. } => {
            lemma_injective_response(m1, m2);
        },
        MessageView::TabComplete { stdin: a } => {
            let b = m2->TabComplete_stdin;
            assert(encoding(m1) =~= header(m1) + (quoted(a) + "}}"@));
            assert(encoding(m2) =~= header(m2) + (quoted(b) + "}}"@));
            lemma_injective_string_field(m1, m2, a, b);
        },
        MessageView::TabCompleteResponse { .. } => {
            lemma_injective_completions(m1, m2);
        },
        MessageView::Auth { .. } => {
            lemma_injective_auth(m1, m2);
        },
        MessageView::AuthResponse { .. } => {
            lemma_injective_auth_response(m1, m2);
        },
    }
}

/// `p` stands in `t` from position `pos` on.
pub open spec fn occurs_at(t: Seq<char>, pos: int, p: Seq<char>) -> bool {
    0 <= pos && pos + p.len() <= t.len() && t.subrange(pos, pos + p.len()) == p
}

/// The value of a lowercase hexadecimal digit.
pub open spec fn hex_value(c: char) -> Option<u32> {
    let u = c as u32;
    if 48 <= u && u <= 57 {
        Some((u - 48) as u32)
    } else if 97 <= u && u <= 102 {
        Some((u - 87) as u32)
    } else {
        None
    }
}

fn hex_of(c: char) -> (r: Option<u32>)
    ensures
        r == hex_value(c),
{
    let u = c as u32;
    if 48 <= u && u <= 57 {
        Some(u - 48)
    } else if 97 <= u && u <= 102 {
        Some(u - 87)
    } else {
        None
    }
}

proof fn lemma_char_from_code(a: char, b: char)
    requires
        a as u32 == b as u32,
    ensures
        a == b,
{
}

proof fn lemma_hex_round_trip(d: u32)
    requires
        d < 16,
    ensures
        hex_value(hex_digit(d)) == Some(d),
{
    assert(hex_digit(d) as u32 == if d < 10 { d + 48 } else { d + 87 });
}

/// Where `lit` ends if it stands in `t` at `pos`.
fn literal_end(t: &Vec<char>, pos: usize, lit: &str) -> (r: Option<usize>)
    ensures
        occurs_at(t@, pos as int, lit@) ==> r == Some((pos + lit@.len()) as usize),
        !occurs_at(t@, pos as int, lit@) ==> r is None,
        r matches Some(e) ==> e == pos + lit@.len() && e <= t@.len(),
{
    let l = chars_of(lit);
    if pos > t.len() || l.len() > t.len() - pos {
        return None;
    }
    let mut i: usize = 0;
    while i < l.len()
        invariant
            l@ == lit@,
            pos + l@.len() <= t@.len(),
            pos + l.len() <= t.len(),
            i <= l@.len(),
            t@.subrange(pos as int, pos + i) == l@.take(i as int),
        decreases l.len() - i,
    {
        if t[pos + i] != l[i] {
            proof {
                assert(t@.subrange(pos as int, pos + l@.len())[i as int] == t@[pos + i]);
            }
            return None;
        }
        proof {
            assert(t@.subrange(pos as int, pos + i + 1) =~= t@.subrange(pos as int, pos + i).push(
                t@[pos + i],
            ));
            assert(l@.take(i + 1) =~= l@.take(i as int).push(l@[i as int]));
        }
        i = i + 1;
    }
    proof {
        assert(l@.take(i as int) =~= l@);
    }
    Some(pos + l.len())
}

proof fn lemma_quoted_at(t: Seq<char>, pos: int, s: Seq<char>, k: int)
    requires
        occurs_at(t, pos, quoted(s)),
        0 <= k <= s.len(),
    ensures
        k < s.len() ==> occurs_at(t, pos + 1 + escaped(s.take(k)).len(), escape_char(s[k])),
        k == s.len() ==> pos + 1 + escaped(s.take(k)).len() < t.len() && t[pos + 1 + escaped(
            s.take(k),
        ).len()] == '"' && pos + 2 + escaped(s.take(k)).len() == pos + quoted(s).len(),
{
    let q = quoted(s);
    let i = pos + 1 + escaped(s.take(k)).len();
    assert(t.subrange(pos, pos + q.len()) == q);
    if k < s.len() {
        lemma_escaped_concat(s.take(k + 1), s.skip(k + 1));
        assert(s.take(k + 1) + s.skip(k + 1) =~= s);
        assert(s.take(k + 1).drop_last() =~= s.take(k));
        let e = escape_char(s[k]);
        assert(escaped(s.take(k + 1)) == escaped(s.take(k)) + e);
        assert forall|j: int| 0 <= j < e.len() implies t.subrange(i, i + e.len())[j] == e[j] by {
            assert(t[i + j] == q[1 + escaped(s.take(k)).len() + j]);
        }
        assert(t.subrange(i, i + e.len()) =~= e);
    } else {
        assert(s.take(k) =~= s);
        assert(t[i] == q[q.len() - 1]);
    }
}

/// Reads the JSON string literal at `pos`; when it is the one of `s`, its contents come
/// back with the position after it.
fn parse_quoted(t: &Vec<char>, pos: usize, Ghost(s): Ghost<Seq<char>>) -> (r: Option<
    (String, usize),
>)
    ensures
        occurs_at(t@, pos as int, quoted(s)) ==> (r matches Some((v, e)) && v@ == s && e == pos
            + quoted(s).len()),
        r matches Some((v, e)) ==> pos < e <= t@.len(),
{
    proof {
        if occurs_at(t@, pos as int, quoted(s)) {
            assert(t@.subrange(pos as int, pos + quoted(s).len())[0] == t@[pos as int]);
        }
    }
    if pos >= t.len() || t[pos] != '"' {
        return None;
    }
    let ghost matching = occurs_at(t@, pos as int, quoted(s));
    let mut out: Vec<char> = Vec::new();
    let mut i: usize = pos + 1;
    let ghost mut k: int = 0;
    proof {
        assert(s.take(0) =~= Seq::<char>::empty());
        assert(out@ =~= s.take(0));
    }
    loop
        invariant
            pos < i <= t@.len(),
            matching == occurs_at(t@, pos as int, quoted(s)),
            matching ==> 0 <= k <= s.len() && out@ == s.take(k) && i == pos + 1 + escaped(
                s.take(k),
            ).len(),
        decreases t@.len() - i,
    {
        if i >= t.len() {
            proof {
                if matching {
                    lemma_quoted_at(t@, pos as int, s, k);
                    if k < s.len() {
                        lemma_escape_char_shape(s[k]);
                    }
                }
            }
            return None;
        }
        proof {
            if matching {
                lemma_quoted_at(t@, pos as int, s, k);
                if k < s.len() {
                    let e = escape_char(s[k]);
                    lemma_escape_char_shape(s[k]);
                    assert(t@.subrange(i as int, i + e.len())[0] == t@[i as int]);
                    if e.len() >= 2 {
                        assert(t@.subrange(i as int, i + e.len())[1] == t@[i + 1]);
                    }
                    if e.len() == 6 {
                        assert(t@.subrange(i as int, i + e.len())[2] == t@[i + 2]);
                        assert(t@.subrange(i as int, i + e.len())[3] == t@[i + 3]);
                        assert(t@.subrange(i as int, i + e.len())[4] == t@[i + 4]);
                        assert(t@.subrange(i as int, i + e.len())[5] == t@[i + 5]);
                        lemma_hex_round_trip((s[k] as u32) / 16);
                        lemma_hex_round_trip((s[k] as u32) % 16);
                    }
                }
            }
        }
        let c = t[i];
        if c == '"' {
            proof {
                if matching && k < s.len() {
                    lemma_escape_char_shape(s[k]);
                }
                if matching {
                    assert(s.take(k) =~= s);
                }
            }
            return Some((string_of(out.as_slice()), i + 1));
        }
        let ghost before = out@;
        if c == '\\' {
            if i + 1 >= t.len() {
                return None;
            }
            let e = t[i + 1];
            if e == 'u' {
                if t.len() - i <= 5 || t[i + 2] != '0' || t[i + 3] != '0' {
                    return None;
                }
                let hi = hex_of(t[i + 4]);
                let lo = hex_of(t[i + 5]);
                match (hi, lo) {
                    (Some(a), Some(b)) => {
                        let v: u32 = a * 16 + b;
                        out.push(((v as u8) as char));
                        proof {
                            if matching {
                                assert(t@[i + 1] == 'u');
                                assert(escape_char(s[k])[1] == 'u');
                                assert(short_escape(s[k]) is None);
                                assert((s[k] as u32) < 0x20);
                                assert(a == (s[k] as u32) / 16);
                                assert(b == (s[k] as u32) % 16);
                                assert(((v as u8) as char) as u32 == s[k] as u32);
                                lemma_char_from_code((v as u8) as char, s[k]);
                                assert(out@ == before.push(s[k]));
                            }
                        }
                    },
                    _ => {
                        return None;
                    },
                }
                i = i + 6;
            } else {
                let d = if e == '"' {
                    '"'
                } else if e == '\\' {
                    '\\'
                } else if e == 'b' {
                    '\u{8}'
                } else if e == 'f' {
                    '\u{c}'
                } else if e == 'n' {
                    '\n'
                } else if e == 'r' {
                    '\r'
                } else if e == 't' {
                    '\t'
                } else {
                    return None;
                };
                proof {
                    if matching {
                        assert(escape_char(s[k])[1] == e);
                        assert(short_escape(s[k]) is Some);
                        assert(d == s[k]);
                        assert(out@ == before);
                    }
                }
                out.push(d);
                i = i + 2;
            }
        } else {
            proof {
                if matching {
                    assert(c == s[k]);
                }
            }
            out.push(c);
            i = i + 1;
        }
        proof {
            if matching {
                assert(out@ == before.push(s[k]));
                assert(s.take(k + 1) =~= s.take(k).push(s[k]));
                assert(s.take(k + 1).drop_last() =~= s.take(k));
                k = k + 1;
            }
        }
    }
}

fn parse_bool(t: &Vec<char>, pos: usize, Ghost(b): Ghost<bool>) -> (r: Option<(bool, usize)>)
    ensures
        occurs_at(t@, pos as int, bool_text(b)) ==> (r matches Some((x, e)) && x == b && e == pos
            + bool_text(b).len()),
        r matches Some((v, e)) ==> pos <= e <= t@.len(),
{
    proof {
        reveal_strlit("true");
        reveal_strlit("false");
        if occurs_at(t@, pos as int, bool_text(b)) {
            assert(t@.subrange(pos as int, pos + bool_text(b).len())[0] == t@[pos as int]);
            if !b {
                assert(!occurs_at(t@, pos as int, "true"@));
            }
        }
    }
    match literal_end(t, pos, "true") {
        Some(e) => Some((true, e)),
        None => match literal_end(t, pos, "false") {
            Some(e) => Some((false, e)),
            None => None,
        },
    }
}

fn parse_method(t: &Vec<char>, pos: usize, Ghost(m): Ghost<AuthMethod>) -> (r: Option<
    (AuthMethod, usize),
>)
    ensures
        occurs_at(t@, pos as int, method_text(m)) ==> (r matches Some((x, e)) && x == m && e == pos
            + method_text(m).len()),
        r matches Some((v, e)) ==> pos <= e <= t@.len(),
{
    proof {
        reveal_strlit("\"Password\"");
        reveal_strlit("\"Certificate\"");
        if occurs_at(t@, pos as int, method_text(m)) {
            assert(t@.subrange(pos as int, pos + method_text(m).len())[1] == t@[pos + 1]);
            if m == AuthMethod::Certificate {
                assert(!occurs_at(t@, pos as int, "\"Password\""@));
            }
        }
    }
    match literal_end(t, pos, "\"Password\"") {
        Some(e) => Some((AuthMethod::Password, e)),
        None => match literal_end(t, pos, "\"Certificate\"") {
            Some(e) => Some((AuthMethod::Certificate, e)),
            None => None,
        },
    }
}

proof fn lemma_items_tail(l: Seq<Seq<char>>, k: int)
    requires
        0 <= k < l.len(),
    ensures
        l.skip(k).len() == 1 ==> items(l.skip(k)) == quoted(l[k]),
        l.skip(k).len() >= 2 ==> items(l.skip(k)) == quoted(l[k]) + seq![','] + items(l.skip(k + 1)),
{
    if l.skip(k).len() >= 2 {
        lemma_items_front(l.skip(k));
        assert(l.skip(k).drop_first() =~= l.skip(k + 1));
    }
}

/// Reads `[` string literals separated by commas `]` at `pos`; when they are the ones of
/// `l`, their contents come back with the position after the `]`.
fn parse_list(t: &Vec<char>, pos: usize, Ghost(l): Ghost<Seq<Seq<char>>>) -> (r: Option<
    (Vec<String>, usize),
>)
    ensures
        occurs_at(t@, pos as int, seq!['['] + items(l) + seq![']']) ==> (r matches Some((v, e))
            && views(v@) == l && e == pos + items(l).len() + 2),
        r matches Some((v, e)) ==> pos < e <= t@.len(),
{
    let ghost whole = seq!['['] + items(l) + seq![']'];
    let ghost matching = occurs_at(t@, pos as int, whole);
    proof {
        if matching {
            assert(t@.subrange(pos as int, pos + whole.len())[0] == t@[pos as int]);
        }
    }
    if pos >= t.len() || t[pos] != '[' || t.len() - pos < 2 {
        proof {
            if matching {
                assert(whole.len() >= 2);
            }
        }
        return None;
    }
    let mut out: Vec<String> = Vec::new();
    if t[pos + 1] == ']' {
        proof {
            if matching && l.len() > 0 {
                if l.len() >= 2 {
                    lemma_items_front(l);
                }
                assert(whole =~= seq!['['] + quoted(l[0]) + whole.subrange(
                    1 + quoted(l[0]).len() as int,
                    whole.len() as int,
                ));
                assert(t@.subrange(pos as int, pos + whole.len())[1] == t@[pos + 1]);
            }
            if matching {
                assert(views(out@) =~= l);
            }
        }
        return Some((out, pos + 2));
    }
    proof {
        if matching {
            assert(t@.subrange(pos as int, pos + whole.len())[1] == t@[pos + 1]);
            if l.len() == 0 {
                assert(whole =~= seq!['[', ']']);
            }
            assert(l.skip(0) =~= l);
            assert(whole.subrange(1, whole.len() as int) =~= items(l) + seq![']']);
            assert(t@.subrange(pos + 1, pos + whole.len()) =~= t@.subrange(
                pos as int,
                pos + whole.len(),
            ).subrange(1, whole.len() as int));
        }
    }
    let mut i: usize = pos + 1;
    let ghost mut k: int = 0;
    loop
        invariant
            pos < i <= t@.len(),
            matching == occurs_at(t@, pos as int, whole),
            whole == seq!['['] + items(l) + seq![']'],
            matching ==> 0 <= k < l.len() && views(out@) == l.take(k) && occurs_at(
                t@,
                i as int,
                items(l.skip(k)) + seq![']'],
            ) && i + items(l.skip(k)).len() + 1 == pos + items(l).len() + 2,
        decreases t@.len() - i,
    {
        proof {
            if matching {
                lemma_items_tail(l, k);
                let rest = if l.skip(k).len() == 1 {
                    seq![']']
                } else {
                    seq![','] + items(l.skip(k + 1)) + seq![']']
                };
                assert(items(l.skip(k)) + seq![']'] =~= quoted(l[k]) + rest);
                assert(t@.subrange(i as int, i + quoted(l[k]).len()) =~= t@.subrange(
                    i as int,
                    i + items(l.skip(k)).len() + 1,
                ).subrange(0, quoted(l[k]).len() as int));
                assert((quoted(l[k]) + rest).subrange(0, quoted(l[k]).len() as int) =~= quoted(l[k]));
                assert(occurs_at(t@, i as int, quoted(l[k])));
            }
        }
        let ghost item = if matching { l[k] } else { Seq::empty() };
        match parse_quoted(t, i, Ghost(item)) {
            None => {
                return None;
            },
            Some((v, e)) => {
                let ghost before = views(out@);
                out.push(v);
                proof {
                    if matching {
                        assert(views(out@) =~= before.push(l[k]));
                        assert(l.take(k + 1) =~= l.take(k).push(l[k]));
                    }
                }
                if e >= t.len() {
                    proof {
                        if matching {
                            let q = quoted(l[k]);
                            assert(i + items(l.skip(k)).len() + 1 <= t@.len());
                            assert(items(l.skip(k)).len() >= q.len());
                        }
                    }
                    return None;
                }
                let ghost rest = if l.skip(k).len() == 1 {
                    seq![']']
                } else {
                    seq![','] + items(l.skip(k + 1)) + seq![']']
                };
                proof {
                    if matching {
                        let q = quoted(l[k]);
                        assert(t@.subrange(i as int, i + items(l.skip(k)).len() + 1) == q + rest);
                        assert(t@[e as int] == (q + rest)[q.len() as int]);
                    }
                }
                if t[e] == ']' {
                    proof {
                        if matching {
                            assert(l.skip(k).len() == 1);
                            assert(l.take(k + 1) =~= l);
                        }
                    }
                    return Some((out, e + 1));
                } else if t[e] == ',' {
                    proof {
                        if matching {
                            let q = quoted(l[k]);
                            assert(l.skip(k).len() >= 2);
                            let nxt = items(l.skip(k + 1)) + seq![']'];
                            assert(t@.subrange(e + 1, e + 1 + nxt.len()) =~= (q + rest).subrange(
                                q.len() + 1 as int,
                                (q + rest).len() as int,
                            ));
                            assert((q + rest).subrange(q.len() + 1 as int, (q + rest).len() as int)
                                =~= nxt);
                            k = k + 1;
                        }
                    }
                    i = e + 1;
                    if i >= t.len() {
                        proof {
                            if matching {
                                assert(items(l.skip(k)).len() >= 0);
                            }
                        }
                        return None;
                    }
                } else {
                    return None;
                }
            },
        }
    }
}

proof fn lemma_occurs(t: Seq<char>, a: Seq<char>, b: Seq<char>, c: Seq<char>)
    requires
        t =~= a + b + c,
    ensures
        occurs_at(t, a.len() as int, b),
        t.len() == a.len() + b.len() + c.len(),
{
    assert(t.subrange(a.len() as int, (a.len() + b.len()) as int) =~= b);
}

proof fn lemma_header_kind(v: MessageView, m0: MessageView)
    requires
        occurs_at(encoding(v), 0, header(m0)),
    ensures
        kind(v) == kind(m0),
{
    lemma_headers(v, m0);
    lemma_headers(m0, v);
    let e = encoding(v);
    let h = header(m0);
    let hv = header(v);
    assert(e.subrange(0, h.len() as int)[2] == e[2] && e.subrange(0, h.len() as int)[6] == e[6]
        && e.subrange(0, h.len() as int)[9] == e[9] && e.subrange(0, h.len() as int)[13] == e[13]);
    assert(e.take(hv.len() as int)[2] == e[2] && e.take(hv.len() as int)[6] == e[6] && e.take(
        hv.len() as int,
    )[9] == e[9] && e.take(hv.len() as int)[13] == e[13]);
}

fn parse_command(t: &Vec<char>, p: usize, Ghost(v): Ghost<MessageView>) -> (r: Option<TypedMessage>)
    requires
        encoding(v) == t@ && kind(v) == 0 ==> p == header(v).len(),
    ensures
        encoding(v) == t@ && kind(v) == 0 ==> (r matches Some(m) && m@ == v),
{
    let ghost hit = encoding(v) == t@ && kind(v) == 0;
    let ghost e = "}}"@;
    let ghost c = v->Command_command;
    proof {
        if hit {
            lemma_occurs(t@, header(v), quoted(c), e);
            lemma_occurs(t@, header(v) + quoted(c), e, Seq::empty());
        }
    }
    let (s, q) = match parse_quoted(t, p, Ghost(c)) {
        Some(x) => x,
        None => {
            return None;
        },
    };
    match literal_end(t, q, "}}") {
        Some(end) => if end == t.len() {
            return Some(TypedMessage::Command { command: s });
        },
        None => {},
    }
    return None;
}

fn parse_command_response(t: &Vec<char>, p: usize, Ghost(v): Ghost<MessageView>) -> (r: Option<TypedMessage>)
    requires
        encoding(v) == t@ && kind(v) == 1 ==> p == header(v).len(),
    ensures
        encoding(v) == t@ && kind(v) == 1 ==> (r matches Some(m) && m@ == v),
{
    let ghost hit = encoding(v) == t@ && kind(v) == 1;
    let ghost e = "}}"@;
    let ghost c = v->CommandResponse_response;
    let ghost b = v->CommandResponse_success;
    let ghost f = ",\"success\":"@;
    proof {
        if hit {
            lemma_occurs(t@, header(v), quoted(c), f + bool_text(b) + e);
            lemma_occurs(t@, header(v) + quoted(c), f, bool_text(b) + e);
            lemma_occurs(t@, header(v) + quoted(c) + f, bool_text(b), e);
            lemma_occurs(t@, header(v) + quoted(c) + f + bool_text(b), e, Seq::empty());
        }
    }
    let (s, q) = match parse_quoted(t, p, Ghost(c)) {
        Some(x) => x,
        None => {
            return None;
        },
    };
    let q = match literal_end(t, q, ",\"success\":") {
        Some(x) => x,
        None => {
            return None;
        },
    };
    let (success, q) = match parse_bool(t, q, Ghost(b)) {
        Some(x) => x,
        None => {
            return None;
        },
    };
    match literal_end(t, q, "}}") {
        Some(end) => if end == t.len() {
            return Some(TypedMessage::CommandResponse { response: s, success });
        },
        None => {},
    }
    return None;
}

fn parse_tab_complete(t: &Vec<char>, p: usize, Ghost(v): Ghost<MessageView>) -> (r: Option<TypedMessage>)
    requires
        encoding(v) == t@ && kind(v) == 2 ==> p == header(v).len(),
    ensures
        encoding(v) == t@ && kind(v) == 2 ==> (r matches Some(m) && m@ == v),
{
    let ghost hit = encoding(v) == t@ && kind(v) == 2;
    let ghost e = "}}"@;
    let ghost c = v->TabComplete_stdin;
    proof {
        if hit {
            lemma_occurs(t@, header(v), quoted(c), e);
            lemma_occurs(t@, header(v) + quoted(c), e, Seq::empty());
        }
    }
    let (s, q) = match parse_quoted(t, p, Ghost(c)) {
        Some(x) => x,
        None => {
            return None;
        },
    };
    match literal_end(t, q, "}}") {
        Some(end) => if end == t.len() {
            return Some(TypedMessage::TabComplete { stdin: s });
        },
        None => {},
    }
    return None;
}

fn parse_tab_complete_response(t: &Vec<char>, p: usize, Ghost(v): Ghost<MessageView>) -> (r: Option<TypedMessage>)
    requires
        encoding(v) == t@ && kind(v) == 3 ==> p == header(v).len(),
    ensures
        encoding(v) == t@ && kind(v) == 3 ==> (r matches Some(m) && m@ == v),
{
    let ghost hit = encoding(v) == t@ && kind(v) == 3;
    let ghost e = "}}"@;
    let ghost l = v->TabCompleteResponse_completions;
    let ghost w = seq!['['] + items(l) + seq![']'];
    proof {
        if hit {
            lemma_occurs(t@, header(v), w, e);
            lemma_occurs(t@, header(v) + w, e, Seq::empty());
        }
    }
    let (completions, q) = match parse_list(t, p, Ghost(l)) {
        Some(x) => x,
        None => {
            return None;
        },
    };
    match literal_end(t, q, "}}") {
        Some(end) => if end == t.len() {
            return Some(TypedMessage::TabCompleteResponse { completions });
        },
        None => {},
    }
    return None;
}

fn parse_auth(t: &Vec<char>, p: usize, Ghost(v): Ghost<MessageView>) -> (r: Option<TypedMessage>)
    requires
        encoding(v) == t@ && kind(v) == 4 ==> p == header(v).len(),
    ensures
        encoding(v) == t@ && kind(v) == 4 ==> (r matches Some(m) && m@ == v),
{
    let ghost hit = encoding(v) == t@ && kind(v) == 4;
    let ghost e = "}}"@;
    let ghost am = v->Auth_auth_method;
    let ghost u = v->Auth_username;
    let ghost sc = v->Auth_secret;
    let ghost fu = ",\"username\":"@;
    let ghost fs = ",\"secret\":"@;
    proof {
        if hit {
            let h = header(v);
            lemma_occurs(t@, h, method_text(am), fu + quoted(u) + fs + quoted(sc) + e);
            lemma_occurs(t@, h + method_text(am), fu, quoted(u) + fs + quoted(sc) + e);
            lemma_occurs(t@, h + method_text(am) + fu, quoted(u), fs + quoted(sc) + e);
            lemma_occurs(t@, h + method_text(am) + fu + quoted(u), fs, quoted(sc) + e);
            lemma_occurs(t@, h + method_text(am) + fu + quoted(u) + fs, quoted(sc), e);
            lemma_occurs(t@, h + method_text(am) + fu + quoted(u) + fs + quoted(sc), e, Seq::empty());
        }
    }
    let (auth_method, q) = match parse_method(t, p, Ghost(am)) {
        Some(x) => x,
        None => {
            return None;
        },
    };
    let q = match literal_end(t, q, ",\"username\":") {
        Some(x) => x,
        None => {
            return None;
        },
    };
    let (username, q) = match parse_quoted(t, q, Ghost(u)) {
        Some(x) => x,
        None => {
            return None;
        },
    };
    let q = match literal_end(t, q, ",\"secret\":") {
        Some(x) => x,
        None => {
            return None;
        },
    };
    let (secret, q) = match parse_quoted(t, q, Ghost(sc)) {
        Some(x) => x,
        None => {
            return None;
        },
    };
    match literal_end(t, q, "}}") {
        Some(end) => if end == t.len() {
            return Some(TypedMessage::Auth { auth_method, username, secret });
        },
        None => {},
    }
    return None;
}

fn parse_auth_response(t: &Vec<char>, p: usize, Ghost(v): Ghost<MessageView>) -> (r: Option<TypedMessage>)
    requires
        encoding(v) == t@ && kind(v) == 5 ==> p == header(v).len(),
    ensures
        encoding(v) == t@ && kind(v) == 5 ==> (r matches Some(m) && m@ == v),
{
    let ghost hit = encoding(v) == t@ && kind(v) == 5;
    let ghost e = "}}"@;
    let ghost b = v->AuthResponse_success;
    proof {
        if hit {
            lemma_occurs(t@, header(v), bool_text(b), e);
            lemma_occurs(t@, header(v) + bool_text(b), e, Seq::empty());
        }
    }
    let (success, q) = match parse_bool(t, p, Ghost(b)) {
        Some(x) => x,
        None => {
            return None;
        },
    };
    match literal_end(t, q, "}}") {
        Some(end) => if end == t.len() {
            return Some(TypedMessage::AuthResponse { success });
        },
        None => {},
    }
    return None;
}

fn parse_message(t: &Vec<char>, Ghost(v): Ghost<MessageView>) -> (r: Option<TypedMessage>)
    ensures
        encoding(v) == t@ ==> (r matches Some(m) && m@ == v),
{
    let ghost hit = encoding(v) == t@;
    if let Some(p) = literal_end(t, 0, "{\"Command\":{\"command\":") {
        proof {
            if hit {
                lemma_header_kind(v, MessageView::Command { command: Seq::empty() });
            }
        }
        return parse_command(t, p, Ghost(v));
    }
    if let Some(p) = literal_end(t, 0, "{\"CommandResponse\":{\"response\":") {
        proof {
            if hit {
                lemma_header_kind(v, MessageView::CommandResponse { response: Seq::empty(), success: true });
            }
        }
        return parse_command_response(t, p, Ghost(v));
    }
    if let Some(p) = literal_end(t, 0, "{\"TabComplete\":{\"stdin\":") {
        proof {
            if hit {
                lemma_header_kind(v, MessageView::TabComplete { stdin: Seq::empty() });
            }
        }
        return parse_tab_complete(t, p, Ghost(v));
    }
    if let Some(p) = literal_end(t, 0, "{\"TabCompleteResponse\":{\"completions\":") {
        proof {
            if hit {
                lemma_header_kind(v, MessageView::TabCompleteResponse { completions: Seq::empty() });
            }
        }
        return parse_tab_complete_response(t, p, Ghost(v));
    }
    if let Some(p) = literal_end(t, 0, "{\"Auth\":{\"auth_method\":") {
        proof {
            if hit {
                lemma_header_kind(v, MessageView::Auth { auth_method: AuthMethod::Password, username: Seq::empty(), secret: Seq::empty() });
            }
        }
        return parse_auth(t, p, Ghost(v));
    }
    if let Some(p) = literal_end(t, 0, "{\"AuthResponse\":{\"success\":") {
        proof {
            if hit {
                lemma_header_kind(v, MessageView::AuthResponse { success: true });
            }
        }
        return parse_auth_response(t, p, Ghost(v));
    }
    proof {
        if hit {
            lemma_headers(v, v);
            assert(occurs_at(t@, 0, header(v)));
        }
    }
    None
}

/// The text is not the encoding of any message.
#[derive(Debug, Clone, Copy, PartialEq, Eq, Structural)]
pub struct DecodeError;

/// The message whose encoding is `text`, if there is one.
pub open spec fn decoding(text: Seq<char>) -> Option<MessageView> {
    if exists|v: MessageView| encoding(v) == text {
        Some(choose|v: MessageView| encoding(v) == text)
    } else {
        None
    }
}

/// Decoding the encoding of a message gives back that message.
pub proof fn lemma_round_trip(m: MessageView)
    ensures
        decoding(encoding(m)) == Some(m),
{
    let v = choose|v: MessageView| encoding(v) == encoding(m);
    lemma_encoding_injective(v, m);
}

/// The message that `text` encodes; `DecodeError` for any text that `encode` does not produce.
pub fn decode(text: &str) -> (r: Result<TypedMessage, DecodeError>)
    ensures
        match decoding(text@) {
            Some(v) => r matches Ok(m) && m@ == v,
            None => r is Err,
        },
{
    let t = chars_of(text);
    let ghost v = choose|v: MessageView| encoding(v) == text@;
    match parse_message(&t, Ghost(v)) {
        Some(m) => {
            let again = encode(&m);
            if again == String::from_str(text) {
                proof {
                    lemma_encoding_injective(m@, decoding(text@)->Some_0);
                }
                Ok(m)
            } else {
                Err(DecodeError)
            }
        },
        None => Err(DecodeError),
    }
}

/// The encoding of `m` followed by a newline, which never occurs inside an encoding:
/// one frame of the byte stream.
pub fn encode_frame(m: &TypedMessage) -> (r: String)
    ensures
        r@ == encoding(m@).push('\n'),
{
    let mut s = encode(m);
    push_char(&mut s, '\n');
    s
}

/// The position of the first newline byte in `buf`, which ends the first frame.
pub fn frame_end(buf: &[u8]) -> (r: Option<usize>)
    ensures
        match r {
            Some(i) => i < buf@.len() && buf@[i as int] == 10 && forall|j: int|
                0 <= j < i ==> buf@[j] != 10,
            None => forall|j: int| 0 <= j < buf@.len() ==> buf@[j] != 10,
        },
{
    let mut i: usize = 0;
    while i < buf.len()
        invariant
            i <= buf@.len(),
            forall|j: int| 0 <= j < i ==> buf@[j] != 10,
        decreases buf.len() - i,
    {
        if buf[i] == 10 {
            return Some(i);
        }
        i = i + 1;
    }
    None
}

} // verus!
