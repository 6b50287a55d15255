//! The template language of session specifications.
//!
//! A template is scanned once, left to right, by a two-state machine. In the
//! normal state characters are copied; `$` switches to reading a variable
//! name, a maximal run of alphanumeric characters and underscores. A name of
//! decimal digits selects a capture group of the current glob match; any other
//! name is looked up in the environment. Unknown variables expand to nothing.
//! `\$` stands for `$` and `\\` for `\`; any other backslash is kept. What a
//! variable expands to is not scanned again.
use vstd::prelude::*;

use crate::text::{decimal_value, is_decimal, parse_decimal, string_of};

verus! {

/// Whether `c` is alphabetic or numeric in the sense of Unicode.
pub uninterp spec fn alphanumeric(c: char) -> bool;

/// Relies on `char::is_alphanumeric`, whose answer depends on the character
/// alone.
pub assume_specification[ char::is_alphanumeric ](c: char) -> (r: bool)
    ensures
        r == alphanumeric(c),
;

/// A character that may stand in a variable name.
pub open spec fn is_name_char(c: char) -> bool {
    alphanumeric(c) || c == '_'
}

/// The characters of each string.
pub open spec fn strings_view(v: Seq<String>) -> Seq<Seq<char>> {
    v.map_values(|s: String| s@)
}

/// The characters of each name and value.
pub open spec fn pairs_view(v: Seq<(String, String)>) -> Seq<(Seq<char>, Seq<char>)> {
    v.map_values(|p: (String, String)| (p.0@, p.1@))
}

/// The value of the first variable called `name`, or nothing.
pub open spec fn env_lookup(env: Seq<(Seq<char>, Seq<char>)>, name: Seq<char>) -> Seq<char>
    decreases env.len(),
{
    if env.len() == 0 {
        seq![]
    } else if env[0].0 == name {
        env[0].1
    } else {
        env_lookup(env.drop_first(), name)
    }
}

/// What the variable `name` expands to: the capture group it numbers, or the
/// environment variable it names; nothing when that is absent.
pub open spec fn variable_value(
    name: Seq<char>,
    captures: Seq<Seq<char>>,
    env: Seq<(Seq<char>, Seq<char>)>,
) -> Seq<char> {
    if is_decimal(name) && decimal_value(name) <= usize::MAX {
        let n = decimal_value(name);
        if n < captures.len() {
            captures[n as int]
        } else {
            seq![]
        }
    } else {
        env_lookup(env, name)
    }
}

/// The state of the scanner between two characters.
pub enum ScanState {
    /// Copying characters; `escaped` when the last one was a backslash that
    /// may still combine with the next character.
    Normal { escaped: bool },
    /// Reading a variable name after `$`.
    Variable { name: Seq<char> },
}

/// The output of one character in the normal state, and the next state.
pub open spec fn normal_step(escaped: bool, c: char) -> (Seq<char>, ScanState) {
    if escaped && c == '\\' {
        (seq!['\\'], ScanState::Normal { escaped: false })
    } else if escaped && c == '$' {
        (seq!['$'], ScanState::Normal { escaped: false })
    } else if is_name_char(c) {
        (if escaped { seq!['\\', c] } else { seq![c] }, ScanState::Normal { escaped: false })
    } else if c == '\\' {
        (if escaped { seq!['\\'] } else { seq![] }, ScanState::Normal { escaped: true })
    } else if c == '$' {
        (if escaped { seq!['\\'] } else { seq![] }, ScanState::Variable { name: seq![] })
    } else {
        (if escaped { seq!['\\', c] } else { seq![c] }, ScanState::Normal { escaped: false })
    }
}

/// The output of one character, and the next state.
pub open spec fn scan_step(
    st: ScanState,
    c: char,
    captures: Seq<Seq<char>>,
    env: Seq<(Seq<char>, Seq<char>)>,
) -> (Seq<char>, ScanState) {
    match st {
        ScanState::Normal { escaped } => normal_step(escaped, c),
        ScanState::Variable { name } => if is_name_char(c) {
            (seq![], ScanState::Variable { name: name.push(c) })
        } else {
            let (o, next) = normal_step(false, c);
            (variable_value(name, captures, env) + o, next)
        },
    }
}

/// What is left to write when the template ends in state `st`.
pub open spec fn scan_end(
    st: ScanState,
    captures: Seq<Seq<char>>,
    env: Seq<(Seq<char>, Seq<char>)>,
) -> Seq<char> {
    match st {
        ScanState::Normal { escaped } => if escaped { seq!['\\'] } else { seq![] },
        ScanState::Variable { name } => variable_value(name, captures, env),
    }
}

/// The output of scanning `t` from state `st`.
pub open spec fn scan(
    t: Seq<char>,
    st: ScanState,
    captures: Seq<Seq<char>>,
    env: Seq<(Seq<char>, Seq<char>)>,
) -> Seq<char>
    decreases t.len(),
{
    if t.len() == 0 {
        scan_end(st, captures, env)
    } else {
        let (o, next) = scan_step(st, t[0], captures, env);
        o + scan(t.drop_first(), next, captures, env)
    }
}

/// The expansion of template `t`.
pub open spec fn expansion(
    t: Seq<char>,
    captures: Seq<Seq<char>>,
    env: Seq<(Seq<char>, Seq<char>)>,
) -> Seq<char> {
    scan(t, ScanState::Normal { escaped: false }, captures, env)
}

/// The value of `name` among the environment's variables, or nothing.
fn lookup_env(env: &Vec<(String, String)>, name: &String) -> (r: String)
    ensures
        r@ == env_lookup(pairs_view(env@), name@),
{
    let mut i: usize = 0;
    assert(pairs_view(env@).skip(0) == pairs_view(env@));
    while i < env.len()
        invariant
            i <= env@.len(),
            env_lookup(pairs_view(env@), name@) == env_lookup(
                pairs_view(env@).skip(i as int),
                name@,
            ),
        decreases env@.len() - i,
    {
        assert(pairs_view(env@).skip(i as int).drop_first() == pairs_view(env@).skip(i + 1));
        if env[i].0 == *name {
            return env[i].1.clone();
        }
        i = i + 1;
    }
    String::new()
}

/// What the variable `name` expands to.
fn variable(name: &Vec<char>, captures: &Vec<String>, env: &Vec<(String, String)>) -> (r: String)
    ensures
        r@ == variable_value(name@, strings_view(captures@), pairs_view(env@)),
{
    match parse_decimal(name) {
        Some(n) => if n < captures.len() {
            captures[n].clone()
        } else {
            String::new()
        },
        None => lookup_env(env, &string_of(name)),
    }
}

/// Expands template `template`: capture group `n` of the current glob match
/// is `captures[n]` (none when there is no match), and `env` lists the
/// environment's variables as (name, value) pairs.
pub fn expand(template: &str, captures: &Vec<String>, env: &Vec<(String, String)>) -> (r: String)
    ensures
        r@ == expansion(template@, strings_view(captures@), pairs_view(env@)),
{
    let ghost caps = strings_view(captures@);
    let ghost vars = pairs_view(env@);
    let t = crate::text::chars_of(template);
    let mut out = String::new();
    let mut in_variable = false;
    let mut escaped = false;
    let mut name: Vec<char> = Vec::new();
    let mut i: usize = 0;
    assert(t@.skip(0) == t@);
    assert(out@ + expansion(template@, caps, vars) == expansion(template@, caps, vars));
    while i < t.len()
        invariant
            i <= t@.len(),
            t@ == template@,
            caps == strings_view(captures@),
            vars == pairs_view(env@),
            !(in_variable && escaped),
            !in_variable ==> name@.len() == 0,
            out@ + scan(
                t@.skip(i as int),
                if in_variable {
                    ScanState::Variable { name: name@ }
                } else {
                    ScanState::Normal { escaped }
                },
                caps,
                vars,
            ) == expansion(template@, caps, vars),
        decreases t@.len() - i,
    {
        let ghost st = if in_variable {
            ScanState::Variable { name: name@ }
        } else {
            ScanState::Normal { escaped }
        };
        let ghost rest = t@.skip(i as int);
        let c = t[i];
        assert(rest[0] == c);
        assert(rest.drop_first() == t@.skip(i + 1));
        let ghost old_out = out@;
        let named = c.is_alphanumeric() || c == '_';
        assert(named == is_name_char(c));
        let ghost was_variable = in_variable;
        let ghost old_name = name@;
        let ghost mut flushed = old_out;
        if in_variable && named {
            name.push(c);
        } else {
            if in_variable {
                let value = variable(&name, captures, env);
                out.append(value.as_str());
                name = Vec::new();
                in_variable = false;
            }
            proof {
                flushed = out@;
            }
            assert(flushed == old_out + (if was_variable {
                variable_value(old_name, caps, vars)
            } else {
                seq![]
            })) by {
                if !was_variable {
                    assert(old_out + seq![] =~= old_out);
                }
            }
            if escaped && c == '\\' {
                out.push('\\');
                escaped = false;
            } else if escaped && c == '$' {
                out.push('$');
                escaped = false;
            } else {
                if escaped {
                    out.push('\\');
                    escaped = false;
                }
                if named {
                    out.push(c);
                } else if c == '\\' {
                    escaped = true;
                } else if c == '$' {
                    in_variable = true;
                } else {
                    out.push(c);
                }
            }
        }
        proof {
            if !(was_variable && is_name_char(c)) {
                let (o1, _) = normal_step(if was_variable { false } else { st->escaped }, c);
                assert(out@ =~= flushed + o1);
                assert(name@ =~= seq![]);
            }
            let (o, next) = scan_step(st, c, caps, vars);
            let now = if in_variable {
                ScanState::Variable { name: name@ }
            } else {
                ScanState::Normal { escaped }
            };
            assert(out@ =~= old_out + o);
            assert(now == next);
            let tail = scan(rest.drop_first(), next, caps, vars);
            assert(scan(rest, st, caps, vars) == o + tail);
            assert(old_out + (o + tail) == (old_out + o) + tail);
        }
        i = i + 1;
    }
    assert(t@.skip(i as int).len() == 0);
    if in_variable {
        let value = variable(&name, captures, env);
        out.append(value.as_str());
    } else if escaped {
        out.push('\\');
    }
    out
}

} // verus!
