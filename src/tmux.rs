//! What this library tells tmux, and what it reads back.
//!
//! Commands are built here as argument lists; running them is left to the
//! caller. The listing that `tmux ls -F "#{session_name} #{session_attached}"`
//! prints is parsed here into the names of attached and of created sessions.
use vstd::prelude::*;
use vstd::utf8::{decode_utf8, valid_utf8};

use crate::config::Window;
use crate::session_list::{Session, State};
use crate::template::strings_view;
use crate::text::{chars_of, decimal_digits, decimal_value, is_decimal, parse_decimal, push_decimal, string_of};

verus! {

/// The characters of each string slice.
pub open spec fn strs_view(v: Seq<&str>) -> Seq<Seq<char>> {
    v.map_values(|s: &str| s@)
}

/// The non-empty words of `parts`, in order.
pub open spec fn words(parts: Seq<Seq<char>>) -> Seq<Seq<char>>
    decreases parts.len(),
{
    if parts.len() == 0 {
        seq![]
    } else if parts.last().len() == 0 {
        words(parts.drop_last())
    } else {
        words(parts.drop_last()).push(parts.last())
    }
}

/// One tmux command: its non-empty words, then the separator `;`.
pub open spec fn command_of(parts: Seq<Seq<char>>) -> Seq<Seq<char>> {
    words(parts).push(seq![';'])
}

/// A sequence of tmux commands, as the arguments of one tmux invocation.
pub struct Tmux {
    args: Vec<String>,
}

impl View for Tmux {
    type V = Seq<Seq<char>>;

    closed spec fn view(&self) -> Seq<Seq<char>> {
        strings_view(self.args@)
    }
}

/// Relies on `String::from_utf8`: it succeeds exactly on valid UTF-8, with
/// the characters that the bytes encode.
#[verifier::external_body]
fn from_utf8(v: Vec<u8>) -> (r: Option<String>)
    ensures
        r is Some <==> valid_utf8(v@),
        r is Some ==> (r->0)@ == decode_utf8(v@),
{
    match String::from_utf8(v) {
        Ok(s) => Some(s),
        Err(_) => None,
    }
}

impl Tmux {
    /// No commands yet.
    pub fn new() -> (r: Tmux)
        ensures
            r@.len() == 0,
    {
        let r = Tmux { args: Vec::new() };
        assert(r@ =~= Seq::<Seq<char>>::empty());
        r
    }

    /// Appends a command made of `parts`; empty parts are left out.
    pub fn command(&mut self, parts: &Vec<&str>)
        ensures
            final(self)@ == old(self)@ + command_of(strs_view(parts@)),
    {
        let ghost start = self@;
        let mut i: usize = 0;
        while i < parts.len()
            invariant
                i <= parts@.len(),
                self@ == start + words(strs_view(parts@).take(i as int)),
            decreases parts@.len() - i,
        {
            let part: &str = parts[i];
            let ghost prev = self@;
            assert(strs_view(parts@).take(i + 1).drop_last() == strs_view(parts@).take(i as int));
            assert(strs_view(parts@).take(i + 1).last() == part@);
            if !part.is_empty() {
                self.args.push(String::from_str(part));
                assert(self@ =~= prev.push(part@));
                assert(start + words(strs_view(parts@).take(i as int)).push(part@) =~= (start + words(
                    strs_view(parts@).take(i as int),
                )).push(part@));
            }
            i = i + 1;
        }
        assert(strs_view(parts@).take(parts@.len() as int) == strs_view(parts@));
        let ghost prev = self@;
        self.args.push(String::from_str(";"));
        proof {
            reveal_strlit(";");
            assert(";"@ =~= seq![';']);
            assert(self@ =~= prev.push(seq![';']));
            assert(start + words(strs_view(parts@)).push(seq![';']) =~= (start + words(strs_view(parts@))).push(
                seq![';'],
            ));
        }
    }

    /// The arguments to hand to tmux.
    pub fn args(&self) -> (r: &Vec<String>)
        ensures
            strings_view(r@) == self@,
    {
        &self.args
    }

    /// The text of tmux's output: the characters that `v` encodes, or
    /// nothing when `v` is not valid UTF-8.
    pub fn to_string(v: Vec<u8>) -> (r: String)
        ensures
            valid_utf8(v@) ==> r@ == decode_utf8(v@),
            !valid_utf8(v@) ==> r@.len() == 0,
    {
        match from_utf8(v) {
            Some(s) => s,
            None => String::new(),
        }
    }
}

/// The name of window `i` of session `name`: `name:i`.
pub open spec fn target(name: Seq<char>, i: nat) -> Seq<char> {
    name + seq![':'] + decimal_digits(i)
}

/// `name:i`.
fn window_target(name: &String, i: usize) -> (r: String)
    ensures
        r@ == target(name@, i as nat),
{
    let mut r = name.clone();
    r.push(':');
    push_decimal(&mut r, i);
    r
}

/// The command that opens window `i` (after the first) of session `name`.
pub open spec fn new_window_command(name: Seq<char>, root: Seq<char>, i: nat, w: Window) -> Seq<Seq<char>> {
    command_of(seq!["new-window"@, "-t"@, target(name, i), "-c"@, root, "-n"@, w.name@, w.command@])
}

/// The commands that open windows 1 to `n - 1` of `ws`.
pub open spec fn new_windows(name: Seq<char>, root: Seq<char>, ws: Seq<Window>, n: nat) -> Seq<Seq<char>>
    decreases n,
{
    if n <= 1 {
        seq![]
    } else {
        new_windows(name, root, ws, (n - 1) as nat) + new_window_command(name, root, (n - 1) as nat, ws[n - 1])
    }
}

/// The command that creates session `name`, detached, with its first window `w`.
pub open spec fn new_session_command(name: Seq<char>, root: Seq<char>, w: Window) -> Seq<Seq<char>> {
    command_of(seq!["new-session"@, "-d"@, "-s"@, name, "-c"@, root, "-n"@, w.name@, w.command@])
}

/// The commands that create session `name` rooted at `root` with windows
/// `ws`, detached: the session with its first window, then the others.
pub open spec fn create_commands(name: Seq<char>, root: Seq<char>, ws: Seq<Window>) -> Seq<Seq<char>> {
    new_session_command(name, root, ws[0]) + new_windows(name, root, ws, ws.len())
}

/// The commands that create session `name` for entry `session`.
pub fn create_session(name: &String, session: &Session) -> (r: Tmux)
    requires
        session.windows@.len() > 0,
    ensures
        r@ == create_commands(name@, session.root@, session.windows@),
{
    let mut tmux = Tmux::new();
    let w = &session.windows[0];
    let parts = vec![
        "new-session",
        "-d",
        "-s",
        name.as_str(),
        "-c",
        session.root.as_str(),
        "-n",
        w.name.as_str(),
        w.command.as_str(),
    ];
    assert(strs_view(parts@) =~= seq![
        "new-session"@,
        "-d"@,
        "-s"@,
        name@,
        "-c"@,
        session.root@,
        "-n"@,
        w.name@,
        w.command@,
    ]);
    tmux.command(&parts);
    assert(tmux@ =~= new_session_command(name@, session.root@, session.windows@[0]) + new_windows(
        name@,
        session.root@,
        session.windows@,
        1,
    ));
    let mut i: usize = 1;
    while i < session.windows.len()
        invariant
            1 <= i <= session.windows@.len(),
            tmux@ == new_session_command(name@, session.root@, session.windows@[0]) + new_windows(
                name@,
                session.root@,
                session.windows@,
                i as nat,
            ),
        decreases session.windows@.len() - i,
    {
        let w = &session.windows[i];
        let t = window_target(name, i);
        let parts = vec![
            "new-window",
            "-t",
            t.as_str(),
            "-c",
            session.root.as_str(),
            "-n",
            w.name.as_str(),
            w.command.as_str(),
        ];
        assert(strs_view(parts@) =~= seq![
            "new-window"@,
            "-t"@,
            target(name@, i as nat),
            "-c"@,
            session.root@,
            "-n"@,
            w.name@,
            w.command@,
        ]);
        let ghost prev = tmux@;
        tmux.command(&parts);
        proof {
            let first = new_session_command(name@, session.root@, session.windows@[0]);
            let more = new_windows(name@, session.root@, session.windows@, i as nat);
            let next = new_window_command(name@, session.root@, i as nat, session.windows@[i as int]);
            assert(new_windows(name@, session.root@, session.windows@, (i + 1) as nat) == more + next);
            assert(first + (more + next) =~= (first + more) + next);
        }
        i = i + 1;
    }
    tmux
}

/// Why a session was not killed.
#[derive(Clone, Copy, Debug, PartialEq, Eq, Structural)]
pub enum KillRefused {
    /// The session does not exist in tmux
    NotCreated,
    /// The session is attached
    Attached,
}

/// The command that closes window `i` of session `name`: the window's kill
/// keys sent to it, or, without any, the window killed.
pub open spec fn kill_window_command(name: Seq<char>, i: nat, w: Window) -> Seq<Seq<char>> {
    if w.kill@.len() == 0 {
        command_of(seq!["kill-window"@, "-t"@, target(name, i)])
    } else {
        command_of(seq!["send-keys"@, "-t"@, target(name, i)] + strings_view(w.kill@))
    }
}

/// The commands that close windows 0 to `n - 1` of `ws`.
pub open spec fn kill_commands(name: Seq<char>, ws: Seq<Window>, n: nat) -> Seq<Seq<char>>
    decreases n,
{
    if n == 0 {
        seq![]
    } else {
        kill_commands(name, ws, (n - 1) as nat) + kill_window_command(name, (n - 1) as nat, ws[n - 1])
    }
}

/// The commands that close every window of session `name`; only a created,
/// unattached session is closed.
pub fn kill(name: &String, session: &Session) -> (r: Result<Tmux, KillRefused>)
    ensures
        r is Ok <==> session.state == State::Created,
        r is Ok ==> (r->Ok_0)@ == kill_commands(name@, session.windows@, session.windows@.len()),
        session.state == State::Undeclared ==> r is Err && r->Err_0 == KillRefused::NotCreated,
        session.state == State::Attached ==> r is Err && r->Err_0 == KillRefused::Attached,
{
    match session.state {
        State::Undeclared => {
            return Err(KillRefused::NotCreated);
        },
        State::Attached => {
            return Err(KillRefused::Attached);
        },
        State::Created => {},
    }
    let mut tmux = Tmux::new();
    let mut i: usize = 0;
    while i < session.windows.len()
        invariant
            i <= session.windows@.len(),
            tmux@ == kill_commands(name@, session.windows@, i as nat),
        decreases session.windows@.len() - i,
    {
        let w = &session.windows[i];
        let t = window_target(name, i);
        let ghost prev = tmux@;
        if w.kill.len() == 0 {
            let parts = vec!["kill-window", "-t", t.as_str()];
            assert(strs_view(parts@) =~= seq!["kill-window"@, "-t"@, target(name@, i as nat)]);
            tmux.command(&parts);
        } else {
            let mut parts = vec!["send-keys", "-t", t.as_str()];
            assert(strs_view(parts@) =~= seq!["send-keys"@, "-t"@, target(name@, i as nat)]);
            let mut k: usize = 0;
            while k < w.kill.len()
                invariant
                    k <= w.kill@.len(),
                    strs_view(parts@) == seq!["send-keys"@, "-t"@, target(name@, i as nat)] + strings_view(
                        w.kill@,
                    ).take(k as int),
                decreases w.kill@.len() - k,
            {
                let ghost before = parts@;
                parts.push(w.kill[k].as_str());
                assert(strs_view(parts@) =~= strs_view(before).push(w.kill@[k as int]@));
                assert(strings_view(w.kill@).take(k + 1) =~= strings_view(w.kill@).take(k as int).push(
                    w.kill@[k as int]@,
                ));
                assert(strs_view(parts@) =~= seq!["send-keys"@, "-t"@, target(name@, i as nat)] + strings_view(
                    w.kill@,
                ).take(k + 1));
                k = k + 1;
            }
            assert(strings_view(w.kill@).take(w.kill@.len() as int) == strings_view(w.kill@));
            tmux.command(&parts);
        }
        i = i + 1;
    }
    Ok(tmux)
}

/// What opening a session takes: creating it first if tmux does not have
/// it, then attaching to it, or switching to it from inside tmux.
pub struct OpenPlan {
    /// The commands that create the session, when it must be created
    pub create: Option<Tmux>,
    /// The command that attaches or switches to it
    pub attach: Tmux,
    /// Whether `attach` runs on the caller's terminal
    pub inherit: bool,
}

/// The command that shows session `name`: switch the client from inside
/// tmux, attach from outside.
pub open spec fn attach_command(name: Seq<char>, inside_tmux: bool) -> Seq<Seq<char>> {
    if inside_tmux {
        command_of(seq!["switch-client"@, "-t"@, name])
    } else {
        command_of(seq!["attach"@, "-t"@, name])
    }
}

/// How to open session `name` for entry `session`.
pub fn open(name: &String, session: &Session, inside_tmux: bool) -> (r: OpenPlan)
    requires
        session.state == State::Undeclared ==> session.windows@.len() > 0,
    ensures
        r.create is Some <==> session.state == State::Undeclared,
        r.create is Some ==> (r.create->0)@ == create_commands(name@, session.root@, session.windows@),
        r.attach@ == attach_command(name@, inside_tmux),
        r.inherit == !inside_tmux,
{
    let create = match session.state {
        State::Undeclared => Some(create_session(name, session)),
        _ => None,
    };
    let mut attach = Tmux::new();
    if inside_tmux {
        let parts = vec!["switch-client", "-t", name.as_str()];
        assert(strs_view(parts@) =~= seq!["switch-client"@, "-t"@, name@]);
        attach.command(&parts);
    } else {
        let parts = vec!["attach", "-t", name.as_str()];
        assert(strs_view(parts@) =~= seq!["attach"@, "-t"@, name@]);
        attach.command(&parts);
    }
    assert(attach@ =~= attach_command(name@, inside_tmux));
    OpenPlan { create, attach, inherit: !inside_tmux }
}

/// The pieces of `s` between separators `sep`, scanned after the pieces
/// `done` and the unfinished piece `cur`.
pub open spec fn split_from(s: Seq<char>, sep: char, cur: Seq<char>, done: Seq<Seq<char>>) -> Seq<Seq<char>>
    decreases s.len(),
{
    if s.len() == 0 {
        done.push(cur)
    } else if s[0] == sep {
        split_from(s.drop_first(), sep, seq![], done.push(cur))
    } else {
        split_from(s.drop_first(), sep, cur.push(s[0]), done)
    }
}

/// The pieces of `s` between separators `sep`; there is always at least one.
pub open spec fn split(s: Seq<char>, sep: char) -> Seq<Seq<char>> {
    split_from(s, sep, seq![], seq![])
}

/// `l` without one trailing carriage return.
pub open spec fn strip_cr(l: Seq<char>) -> Seq<char> {
    if l.len() > 0 && l.last() == '\r' {
        l.drop_last()
    } else {
        l
    }
}

/// The lines of `s`: pieces between line feeds, a carriage return before a
/// line feed dropped, and no empty line after a final line feed.
pub open spec fn lines(s: Seq<char>) -> Seq<Seq<char>> {
    let p = split(s, '\n');
    let n = if p.last().len() == 0 {
        p.len() - 1
    } else {
        p.len() as int
    };
    Seq::new(
        n as nat,
        |i: int|
            if i < p.len() - 1 {
                strip_cr(p[i])
            } else {
                p[i]
            },
    )
}

/// A listing line `name flag`: the name, and whether the flag (the second
/// space-separated field, a decimal count of attached clients) is 1.
pub open spec fn parse_line(l: Seq<char>) -> Option<(Seq<char>, bool)> {
    let f = split(l, ' ');
    if f.len() >= 2 && is_decimal(f[1]) && decimal_value(f[1]) <= usize::MAX {
        Some((f[0], decimal_value(f[1]) == 1))
    } else {
        None
    }
}

/// The names on listing lines `ls`, attached ones apart from the others;
/// `None` when a line does not parse.
pub open spec fn partition(ls: Seq<Seq<char>>) -> Option<(Seq<Seq<char>>, Seq<Seq<char>>)>
    decreases ls.len(),
{
    if ls.len() == 0 {
        Some((seq![], seq![]))
    } else {
        match (partition(ls.drop_last()), parse_line(ls.last())) {
            (Some((attached, created)), Some((name, true))) => Some((attached.push(name), created)),
            (Some((attached, created)), Some((name, false))) => Some((attached, created.push(name))),
            _ => None,
        }
    }
}

/// The sessions of a tmux listing, attached ones apart from the others.
pub open spec fn listing(output: Seq<char>) -> Option<(Seq<Seq<char>>, Seq<Seq<char>>)> {
    partition(lines(output))
}

proof fn lemma_split_from_len(s: Seq<char>, sep: char, cur: Seq<char>, done: Seq<Seq<char>>)
    ensures
        split_from(s, sep, cur, done).len() >= done.len() + 1,
    decreases s.len(),
{
    if s.len() > 0 {
        if s[0] == sep {
            lemma_split_from_len(s.drop_first(), sep, seq![], done.push(cur));
        } else {
            lemma_split_from_len(s.drop_first(), sep, cur.push(s[0]), done);
        }
    }
}

/// The characters of each vector.
pub open spec fn vecs_view(v: Seq<Vec<char>>) -> Seq<Seq<char>> {
    v.map_values(|c: Vec<char>| c@)
}

/// The pieces of `s` between separators `sep`.
fn split_chars(s: &Vec<char>, sep: char) -> (r: Vec<Vec<char>>)
    ensures
        vecs_view(r@) == split(s@, sep),
        r@.len() >= 1,
{
    let mut done: Vec<Vec<char>> = Vec::new();
    let mut cur: Vec<char> = Vec::new();
    let mut i: usize = 0;
    assert(s@.skip(0) == s@);
    assert(vecs_view(done@) =~= Seq::<Seq<char>>::empty());
    while i < s.len()
        invariant
            i <= s@.len(),
            split(s@, sep) == split_from(s@.skip(i as int), sep, cur@, vecs_view(done@)),
        decreases s@.len() - i,
    {
        let c = s[i];
        assert(s@.skip(i as int)[0] == c);
        assert(s@.skip(i as int).drop_first() == s@.skip(i + 1));
        if c == sep {
            let ghost prev = done@;
            let ghost piece = cur@;
            done.push(cur);
            cur = Vec::new();
            assert(vecs_view(done@) =~= vecs_view(prev).push(piece));
            assert(cur@ =~= seq![]);
        } else {
            cur.push(c);
        }
        i = i + 1;
    }
    proof {
        lemma_split_from_len(s@, sep, seq![], seq![]);
    }
    assert(s@.skip(i as int).len() == 0);
    let ghost prev = done@;
    done.push(cur);
    assert(vecs_view(done@) =~= vecs_view(prev).push(done@.last()@));
    done
}

/// The first `n` characters of `v`.
fn prefix(v: &Vec<char>, n: usize) -> (r: Vec<char>)
    requires
        n <= v@.len(),
    ensures
        r@ == v@.take(n as int),
{
    let mut r: Vec<char> = Vec::new();
    let mut i: usize = 0;
    while i < n
        invariant
            n <= v@.len(),
            i <= n,
            r@ == v@.take(i as int),
        decreases n - i,
    {
        r.push(v[i]);
        i = i + 1;
        assert(r@ =~= v@.take(i as int));
    }
    r
}

/// The name and attached flag of listing line `l`.
fn read_line(l: &Vec<char>) -> (r: Option<(String, bool)>)
    ensures
        r is Some <==> parse_line(l@) is Some,
        r is Some ==> ((r->0).0@, (r->0).1) == parse_line(l@)->0,
{
    let fields = split_chars(l, ' ');
    if fields.len() >= 2 {
        assert(vecs_view(fields@)[1] == fields@[1]@);
        match parse_decimal(&fields[1]) {
            Some(count) => Some((string_of(&fields[0]), count == 1)),
            None => None,
        }
    } else {
        None
    }
}

/// Parses the listing that `tmux ls -F "#{session_name} #{session_attached}"`
/// prints: the names of attached sessions, and of the others, in order;
/// `None` when a line does not have that shape.
pub fn list_sessions(output: &str) -> (r: Option<(Vec<String>, Vec<String>)>)
    ensures
        r is Some <==> listing(output@) is Some,
        r is Some ==> (strings_view((r->0).0@), strings_view((r->0).1@)) == listing(output@)->0,
{
    let chars = chars_of(output);
    let pieces = split_chars(&chars, '\n');
    let ghost p = split(output@, '\n');
    let last = pieces.len() - 1;
    let n = if pieces[last].len() == 0 {
        last
    } else {
        pieces.len()
    };
    let ghost ls = lines(output@);
    assert(ls.len() == n);
    let mut attached: Vec<String> = Vec::new();
    let mut created: Vec<String> = Vec::new();
    let mut ok = true;
    let mut i: usize = 0;
    assert(ls.take(0) =~= Seq::<Seq<char>>::empty());
    assert(strings_view(attached@) =~= Seq::<Seq<char>>::empty());
    assert(strings_view(created@) =~= Seq::<Seq<char>>::empty());
    while i < n
        invariant
            n == ls.len(),
            n <= pieces@.len(),
            last == pieces@.len() - 1,
            vecs_view(pieces@) == p,
            ls == lines(output@),
            p == split(output@, '\n'),
            i <= n,
            ok ==> partition(ls.take(i as int)) == Some((strings_view(attached@), strings_view(created@))),
            !ok ==> partition(ls.take(i as int)) is None,
        decreases n - i,
    {
        let piece = &pieces[i];
        assert(p[i as int] == piece@);
        let line = if i < last && piece.len() > 0 && piece[piece.len() - 1] == '\r' {
            prefix(piece, piece.len() - 1)
        } else {
            prefix(piece, piece.len())
        };
        assert(line@ =~= ls[i as int]);
        assert(ls.take(i + 1).drop_last() == ls.take(i as int));
        assert(ls.take(i + 1).last() == line@);
        match read_line(&line) {
            Some((name, is_attached)) => {
                if ok {
                    let ghost a = attached@;
                    let ghost c = created@;
                    if is_attached {
                        attached.push(name);
                        assert(strings_view(attached@) =~= strings_view(a).push((parse_line(line@)->0).0));
                    } else {
                        created.push(name);
                        assert(strings_view(created@) =~= strings_view(c).push((parse_line(line@)->0).0));
                    }
                }
            },
            None => {
                ok = false;
            },
        }
        i = i + 1;
    }
    assert(ls.take(n as int) == ls);
    if ok {
        Some((attached, created))
    } else {
        None
    }
}

} // verus!
