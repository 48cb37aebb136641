//! The systemd launcher's verifiable half: expanding `$VAR` references in the
//! configured parameters against a given environment, and building the unit
//! name a launch runs under. Spawning the process belongs to the surrounding
//! program.

use crate::config::SystemdRunConfig;
use crate::history::dec_seq;
use crate::text::{chars_vec, extend_chars, is_alnum, lower_of, lowercase_str, string_from_chars};
use vstd::prelude::*;

verus! {

/// A character that may start a variable name: a letter or an underscore.
pub open spec fn is_var_start(c: char) -> bool {
    ('A' <= c && c <= 'Z') || ('a' <= c && c <= 'z') || c == '_'
}

/// A character that may continue a variable name.
pub open spec fn is_var_char(c: char) -> bool {
    is_var_start(c) || ('0' <= c && c <= '9')
}

/// How many name characters the text starts with.
pub open spec fn var_len(s: Seq<char>) -> int
    decreases s.len(),
{
    if s.len() == 0 || !is_var_char(s[0]) {
        0
    } else {
        1 + var_len(s.drop_first())
    }
}

pub proof fn lemma_var_len_bounds(s: Seq<char>)
    ensures
        0 <= var_len(s) <= s.len(),
    decreases s.len(),
{
    if s.len() > 0 && is_var_char(s[0]) {
        lemma_var_len_bounds(s.drop_first());
    }
}

/// The value bound to `name`, if any: the first binding wins.
pub open spec fn env_get(env: Seq<(Seq<char>, Seq<char>)>, name: Seq<char>) -> Option<Seq<char>>
    decreases env.len(),
{
    if env.len() == 0 {
        None
    } else if env[0].0 == name {
        Some(env[0].1)
    } else {
        env_get(env.drop_first(), name)
    }
}

/// `s` with each `$NAME` reference replaced by its bound value; an unbound
/// reference is kept verbatim, and replacements are not rescanned.
pub open spec fn expand_vars(s: Seq<char>, env: Seq<(Seq<char>, Seq<char>)>) -> Seq<char>
    decreases s.len(),
{
    if s.len() == 0 {
        Seq::empty()
    } else if s[0] == '$' && s.len() >= 2 && is_var_start(s[1]) {
        let raw = 1 + var_len(s.skip(2));
        let l = if raw < 1 {
            1
        } else if raw > s.len() - 1 {
            s.len() - 1
        } else {
            raw
        };
        let name = s.subrange(1, 1 + l);
        let rest = expand_vars(s.skip(1 + l), env);
        match env_get(env, name) {
            Some(v) => v + rest,
            None => s.subrange(0, 1 + l) + rest,
        }
    } else {
        seq![s[0]] + expand_vars(s.drop_first(), env)
    }
}

/// The environment, as plain values.
pub open spec fn env_view(env: Seq<(String, String)>) -> Seq<(Seq<char>, Seq<char>)> {
    env.map_values(|p: (String, String)| (p.0@, p.1@))
}

/// Looks `name` up in the environment bindings; the first binding wins.
fn env_lookup(env: &Vec<(String, String)>, name: &Vec<char>) -> (r: Option<String>)
    ensures
        match r {
            Some(v) => env_get(env_view(env@), name@) == Some(v@),
            None => env_get(env_view(env@), name@) is None,
        },
{
    let ghost ev = env_view(env@);
    let n = env.len();
    let mut t: usize = 0;
    proof {
        assert(ev.skip(0) =~= ev);
    }
    while t < n
        invariant
            t <= n,
            n == env@.len(),
            ev == env_view(env@),
            ev.len() == n,
            env_get(ev, name@) == env_get(ev.skip(t as int), name@),
        decreases n - t,
    {
        proof {
            assert(ev.skip(t as int).len() > 0);
            assert(ev.skip(t as int)[0] == ev[t as int]);
            assert(ev.skip(t as int).drop_first() =~= ev.skip(t as int + 1));
        }
        if crate::text::string_eq_chars(&env[t].0, name) {
            return Some(env[t].1.clone());
        }
        t = t + 1;
    }
    proof {
        assert(ev.skip(n as int).len() == 0);
    }
    None
}

/// Expands each `$NAME` in `command` against the given environment bindings.
pub fn expand_env_vars(command: &str, env: &Vec<(String, String)>) -> (r: String)
    ensures
        r@ == expand_vars(command@, env_view(env@)),
{
    let ghost ev = env_view(env@);
    let cs = chars_vec(command);
    let n = cs.len();
    let mut out: Vec<char> = Vec::new();
    let mut i: usize = 0;
    proof {
        assert(cs@.skip(0) =~= cs@);
        assert(out@ + expand_vars(cs@, ev) =~= expand_vars(cs@, ev));
    }
    while i < n
        invariant
            i <= n,
            n == cs@.len(),
            cs@ == command@,
            ev == env_view(env@),
            expand_vars(command@, ev) == out@ + expand_vars(cs@.skip(i as int), ev),
        decreases n - i,
    {
        let ghost tail = cs@.skip(i as int);
        proof {
            assert(tail.len() > 0);
            assert(tail[0] == cs@[i as int]);
            assert(tail.drop_first() =~= cs@.skip(i as int + 1));
        }
        let c = cs[i];
        if c == '$' && i + 1 < n && exec_is_var_start(cs[i + 1]) {
            proof {
                assert(tail.len() >= 2);
                assert(tail[1] == cs@[i as int + 1]);
            }
            // scan the name characters after `$X`
            let mut j: usize = i + 2;
            proof {
                assert(tail.skip(2) =~= cs@.skip(i as int + 2));
                assert(var_len(cs@.skip(j as int)) - 0 == var_len(cs@.skip(j as int)));
            }
            while j < n && exec_is_var_char(cs[j])
                invariant
                    i + 2 <= j <= n,
                    n == cs@.len(),
                    var_len(cs@.skip(i as int + 2)) == (j - i - 2) + var_len(cs@.skip(j as int)),
                    forall|u: int| i + 2 <= u < j ==> is_var_char(#[trigger] cs@[u]),
                decreases n - j,
            {
                proof {
                    assert(cs@.skip(j as int).len() > 0);
                    assert(cs@.skip(j as int)[0] == cs@[j as int]);
                    assert(cs@.skip(j as int).drop_first() =~= cs@.skip(j as int + 1));
                }
                j = j + 1;
            }
            proof {
                if j < n {
                    assert(cs@.skip(j as int)[0] == cs@[j as int]);
                    assert(var_len(cs@.skip(j as int)) == 0);
                } else {
                    assert(cs@.skip(j as int).len() == 0);
                    assert(var_len(cs@.skip(j as int)) == 0);
                }
                assert(var_len(cs@.skip(i as int + 2)) == j - i - 2);
                lemma_var_len_bounds(tail.skip(2));
                assert(tail.skip(2) =~= cs@.skip(i as int + 2));
            }
            // the name spans cs[i+1 .. j]
            let mut name: Vec<char> = Vec::new();
            let mut t: usize = i + 1;
            while t < j
                invariant
                    i + 1 <= t <= j,
                    j <= n,
                    n == cs@.len(),
                    name@ == cs@.subrange(i as int + 1, t as int),
                decreases j - t,
            {
                name.push(cs[t]);
                t = t + 1;
                proof {
                    assert(name@ =~= cs@.subrange(i as int + 1, t as int));
                }
            }
            let ghost l = (j - i - 1) as int;
            proof {
                assert(l == 1 + var_len(tail.skip(2)));
                assert(name@ == cs@.subrange(i as int + 1, i as int + 1 + l));
                assert(tail.subrange(1, 1 + l) =~= cs@.subrange(i as int + 1, i as int + 1 + l));
                assert(tail.skip(1 + l) =~= cs@.skip(j as int));
                assert(tail.subrange(0, 1 + l) =~= cs@.subrange(i as int, j as int));
            }
            match env_lookup(env, &name) {
                Some(v) => {
                    let ghost pre = out@;
                    extend_chars(&mut out, v.as_str());
                    proof {
                        assert(pre + (v@ + expand_vars(cs@.skip(j as int), ev)) =~= out@
                            + expand_vars(cs@.skip(j as int), ev));
                    }
                },
                None => {
                    let ghost pre = out@;
                    let mut t2: usize = i;
                    while t2 < j
                        invariant
                            i <= t2 <= j,
                            j <= n,
                            n == cs@.len(),
                            out@ == pre + cs@.subrange(i as int, t2 as int),
                        decreases j - t2,
                    {
                        out.push(cs[t2]);
                        t2 = t2 + 1;
                        proof {
                            assert(out@ =~= pre + cs@.subrange(i as int, t2 as int));
                        }
                    }
                    proof {
                        assert(pre + (cs@.subrange(i as int, j as int) + expand_vars(
                            cs@.skip(j as int),
                            ev,
                        )) =~= out@ + expand_vars(cs@.skip(j as int), ev));
                    }
                },
            }
            i = j;
        } else {
            let ghost pre = out@;
            out.push(c);
            i = i + 1;
            proof {
                assert(pre + (seq![c] + expand_vars(cs@.skip(i as int), ev)) =~= out@
                    + expand_vars(cs@.skip(i as int), ev));
            }
        }
    }
    proof {
        assert(cs@.skip(n as int).len() == 0);
        assert(out@ + expand_vars(cs@.skip(n as int), ev) =~= out@);
    }
    string_from_chars(&out)
}

/// A letter or an underscore.
fn exec_is_var_start(c: char) -> (r: bool)
    ensures
        r == is_var_start(c),
{
    ('A' <= c && c <= 'Z') || ('a' <= c && c <= 'z') || c == '_'
}

/// A letter, a digit or an underscore.
fn exec_is_var_char(c: char) -> (r: bool)
    ensures
        r == is_var_char(c),
{
    exec_is_var_start(c) || ('0' <= c && c <= '9')
}

/// A display name reduced to a unit-name fragment: characters other than
/// letters, digits, hyphens and spaces are dropped, and hyphens and spaces
/// become underscores.
pub open spec fn sanitized(s: Seq<char>) -> Seq<char>
    decreases s.len(),
{
    if s.len() == 0 {
        Seq::empty()
    } else if is_alnum(s[0]) || s[0] == '-' || s[0] == ' ' {
        let c = if s[0] == '-' || s[0] == ' ' {
            '_'
        } else {
            s[0]
        };
        seq![c] + sanitized(s.drop_first())
    } else {
        sanitized(s.drop_first())
    }
}

/// Relies on rand's `random_range`: the draw always lies in the requested
/// range.
#[verifier::external_body]
pub fn random_unit_number() -> (r: u32)
    ensures
        100000 <= r <= 999999,
{
    rand::random_range(100000u32..=999999u32)
}

/// The transient unit name a launch runs under: a fixed prefix, the sanitized
/// and lowercased display name, and a six-digit tag.
pub fn unit_command_name(display: &str, tag: u32) -> (r: String)
    requires
        100000 <= tag <= 999999,
    ensures
        r@ == "app-fuzzyd-"@ + lower_of(sanitized(display@)) + seq!['-'] + dec_seq(tag as int),
{
    let cs = chars_vec(display);
    let n = cs.len();
    let mut clean: Vec<char> = Vec::new();
    let mut i: usize = 0;
    proof {
        assert(cs@.skip(0) =~= cs@);
        assert(clean@ + sanitized(cs@) =~= sanitized(cs@));
    }
    while i < n
        invariant
            i <= n,
            n == cs@.len(),
            cs@ == display@,
            sanitized(display@) == clean@ + sanitized(cs@.skip(i as int)),
        decreases n - i,
    {
        proof {
            assert(cs@.skip(i as int).len() > 0);
            assert(cs@.skip(i as int)[0] == cs@[i as int]);
            assert(cs@.skip(i as int).drop_first() =~= cs@.skip(i as int + 1));
        }
        let ghost pre = clean@;
        let c = cs[i];
        if c == '-' || c == ' ' {
            clean.push('_');
            proof {
                assert(pre + (seq!['_'] + sanitized(cs@.skip(i as int + 1))) =~= clean@ + sanitized(
                    cs@.skip(i as int + 1),
                ));
            }
        } else if c.is_alphanumeric() {
            clean.push(c);
            proof {
                assert(pre + (seq![c] + sanitized(cs@.skip(i as int + 1))) =~= clean@ + sanitized(
                    cs@.skip(i as int + 1),
                ));
            }
        }
        i = i + 1;
    }
    proof {
        assert(cs@.skip(n as int).len() == 0);
        assert(clean@ + sanitized(cs@.skip(n as int)) =~= clean@);
    }
    let clean_str = string_from_chars(&clean);
    let lowered = lowercase_str(clean_str.as_str());
    let mut out: Vec<char> = Vec::new();
    extend_chars(&mut out, "app-fuzzyd-");
    extend_chars(&mut out, lowered.as_str());
    out.push('-');
    crate::history::push_dec(&mut out, tag);
    proof {
        assert(out@ =~= "app-fuzzyd-"@ + lower_of(sanitized(display@)) + seq!['-'] + dec_seq(
            tag as int,
        ));
    }
    string_from_chars(&out)
}

/// The launcher: its configured parameters, expanded against the environment
/// it was created with, and whether launches only print what they would run.
pub struct SystemdLauncher {
    pub dry_run: bool,
    pub parameters: Vec<String>,
}

impl SystemdLauncher {
    /// A launcher over the configured parameters, each with its `$VAR`
    /// references expanded against the given environment bindings.
    pub fn new(dry_run: bool, config: &SystemdRunConfig, env: &Vec<(String, String)>) -> (r:
        SystemdLauncher)
        ensures
            r.dry_run == dry_run,
            r.parameters@.len() == config.parameters@.len(),
            forall|k: int|
                0 <= k < config.parameters@.len() ==> (#[trigger] r.parameters@[k])@ == expand_vars(
                    config.parameters@[k]@,
                    env_view(env@),
                ),
    {
        let n = config.parameters.len();
        let mut parameters: Vec<String> = Vec::new();
        let mut k: usize = 0;
        while k < n
            invariant
                k <= n,
                n == config.parameters@.len(),
                parameters@.len() == k,
                forall|t: int|
                    0 <= t < k ==> (#[trigger] parameters@[t])@ == expand_vars(
                        config.parameters@[t]@,
                        env_view(env@),
                    ),
            decreases n - k,
        {
            let expanded = expand_env_vars(config.parameters[k].as_str(), env);
            parameters.push(expanded);
            k = k + 1;
        }
        SystemdLauncher { dry_run, parameters }
    }
}

} // verus!
