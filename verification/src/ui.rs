//! Presentation data and the display-width truncation used when drawing the
//! candidate list. The terminal itself belongs to the surrounding program.

use crate::text::{char_width, str_width, width_of_char, width_of_str};
use crate::config::UIConfig;
use vstd::prelude::*;
use vstd::string::StringExecFns;

verus! {

/// The settings the interactive screen is drawn with.
pub struct TerminalUI {
    pub config: UIConfig,
    pub debug: bool,
}

impl TerminalUI {
    pub fn new(config: UIConfig, debug: bool) -> (ui: TerminalUI)
        ensures
            ui.debug == debug,
    {
        TerminalUI { config, debug }
    }
}

/// The column width of a character, zero for control characters.
pub open spec fn cw(c: char) -> int {
    match char_width(c) {
        Some(w) => w as int,
        None => 0,
    }
}

/// The longest prefix whose characters fit in `budget` columns, stopping at
/// the first character that does not fit.
pub open spec fn trunc_take(s: Seq<char>, budget: int) -> Seq<char>
    decreases s.len(),
{
    if s.len() == 0 {
        Seq::empty()
    } else if cw(s[0]) > budget {
        Seq::empty()
    } else {
        seq![s[0]] + trunc_take(s.drop_first(), budget - cw(s[0]))
    }
}

/// What truncation yields: the string itself when it fits in `max_width`
/// columns, else the prefix fitting one column less with an ellipsis added.
pub open spec fn truncated(s: Seq<char>, max_width: int) -> Seq<char> {
    if str_width(s) <= max_width {
        s
    } else {
        trunc_take(
            s,
            if max_width >= 1 {
                max_width - 1
            } else {
                0
            },
        ) + seq!['…']
    }
}

/// Cuts a string down to at most `max_width` display columns, marking the cut
/// with an ellipsis.
pub fn truncate_str(s: &str, max_width: usize) -> (r: String)
    ensures
        r@ == truncated(s@, max_width as int),
{
    if width_of_str(s) <= max_width {
        return String::from_str(s);
    }
    let n = s.unicode_len();
    let mut budget: usize = if max_width >= 1 {
        max_width - 1
    } else {
        0
    };
    let ghost b0 = budget as int;
    let mut out: Vec<char> = Vec::new();
    let mut i: usize = 0;
    let mut done = false;
    proof {
        assert(s@.skip(0) =~= s@);
        assert(out@ + trunc_take(s@, b0) =~= trunc_take(s@, b0));
    }
    while i < n && !done
        invariant
            i <= n,
            n == s@.len(),
            !done ==> trunc_take(s@, b0) == out@ + trunc_take(s@.skip(i as int), budget as int),
            done ==> trunc_take(s@, b0) == out@,
        decreases n - i, (if done { 0int } else { 1int }),
    {
        let ghost tail = s@.skip(i as int);
        proof {
            assert(tail.len() > 0);
            assert(tail[0] == s@[i as int]);
            assert(tail.drop_first() =~= s@.skip(i as int + 1));
        }
        let c = s.get_char(i);
        let w: usize = match width_of_char(c) {
            Some(w) => w,
            None => 0,
        };
        if w > budget {
            done = true;
            proof {
                assert(trunc_take(tail, budget as int) =~= Seq::<char>::empty());
                assert(out@ + Seq::<char>::empty() =~= out@);
            }
        } else {
            let ghost pre = out@;
            out.push(c);
            budget = budget - w;
            i = i + 1;
            proof {
                assert(pre + (seq![c] + trunc_take(s@.skip(i as int), budget as int)) =~= out@
                    + trunc_take(s@.skip(i as int), budget as int));
            }
        }
    }
    proof {
        if !done {
            assert(s@.skip(n as int).len() == 0);
            assert(out@ + trunc_take(s@.skip(n as int), budget as int) =~= out@);
        }
    }
    out.push('…');
    proof {
        assert(out@ =~= trunc_take(s@, b0) + seq!['…']);
    }
    crate::text::string_from_chars(&out)
}

} // verus!
