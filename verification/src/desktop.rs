//! Desktop-entry parsing: the text of a `.desktop` file is turned into
//! launchable candidates — a main entry and one per desktop action — and
//! `Exec` lines are cleaned of field codes. Reading the file itself belongs
//! to the surrounding program.

use crate::finder::FuzzyItem;
use crate::text::{
    chars_vec, extend_chars, has_char, is_space, string_eq_chars, string_from_chars, split_chars,
    split_on, views_of_vecs,
};
use vstd::prelude::*;

verus! {

/// A field code a desktop `Exec` line may carry, dropped on parsing.
pub open spec fn is_field_code(c: char) -> bool {
    c == 'f' || c == 'F' || c == 'u' || c == 'U' || c == 'd' || c == 'D' || c == 'n' || c == 'N'
        || c == 'v' || c == 'm' || c == 'c' || c == 'k'
}

/// The line with every deprecated or file-list field code removed.
pub open spec fn strip_codes(s: Seq<char>) -> Seq<char>
    decreases s.len(),
{
    if s.len() == 0 {
        Seq::empty()
    } else if s[0] == '%' && s.len() >= 2 && is_field_code(s[1]) {
        strip_codes(s.skip(2))
    } else {
        seq![s[0]] + strip_codes(s.drop_first())
    }
}

/// The line with every `%i` expanded to an `--icon` argument.
pub open spec fn replace_icon(s: Seq<char>, icon: Seq<char>) -> Seq<char>
    decreases s.len(),
{
    if s.len() == 0 {
        Seq::empty()
    } else if s[0] == '%' && s.len() >= 2 && s[1] == 'i' {
        "--icon "@ + icon + replace_icon(s.skip(2), icon)
    } else {
        seq![s[0]] + replace_icon(s.drop_first(), icon)
    }
}

pub open spec fn trim_start(s: Seq<char>) -> Seq<char>
    decreases s.len(),
{
    if s.len() > 0 && is_space(s[0]) {
        trim_start(s.drop_first())
    } else {
        s
    }
}

pub open spec fn trim_end(s: Seq<char>) -> Seq<char>
    decreases s.len(),
{
    if s.len() > 0 && is_space(s.last()) {
        trim_end(s.drop_last())
    } else {
        s
    }
}

/// The text without leading and trailing whitespace.
pub open spec fn trim_seq(s: Seq<char>) -> Seq<char> {
    trim_end(trim_start(s))
}

/// The text with one leading and one trailing double quote removed, each when
/// present.
pub open spec fn strip_quotes(s: Seq<char>) -> Seq<char> {
    let a = if s.len() >= 1 && s[0] == '"' {
        s.drop_first()
    } else {
        s
    };
    if a.len() >= 1 && a.last() == '"' {
        a.drop_last()
    } else {
        a
    }
}

/// What parsing an `Exec` line yields: field codes dropped, `%i` expanded,
/// the result trimmed and unquoted.
pub open spec fn parsed_exec(s: Seq<char>, icon: Seq<char>) -> Seq<char> {
    strip_quotes(trim_seq(replace_icon(strip_codes(s), icon)))
}

/// Trims leading and trailing whitespace.
fn trim_chars(v: &Vec<char>) -> (r: Vec<char>)
    ensures
        r@ == trim_seq(v@),
{
    let n = v.len();
    let mut a: usize = 0;
    proof {
        assert(v@.skip(0) =~= v@);
    }
    while a < n && v[a].is_whitespace()
        invariant
            a <= n,
            n == v@.len(),
            trim_start(v@) == trim_start(v@.skip(a as int)),
        decreases n - a,
    {
        proof {
            assert(v@.skip(a as int)[0] == v@[a as int]);
            assert(v@.skip(a as int).drop_first() =~= v@.skip(a as int + 1));
        }
        a = a + 1;
    }
    let ghost u = v@.skip(a as int);
    proof {
        if a < n {
            assert(u[0] == v@[a as int]);
        }
        assert(trim_start(v@) == u);
    }
    let mut b: usize = n;
    proof {
        assert(u.take(n - a as int) =~= u);
    }
    while b > a && v[b - 1].is_whitespace()
        invariant
            a <= b <= n,
            n == v@.len(),
            u == v@.skip(a as int),
            trim_end(u) == trim_end(u.take(b - a as int)),
        decreases b,
    {
        proof {
            let w = u.take(b - a as int);
            assert(w.last() == v@[b - 1]);
            assert(w.drop_last() =~= u.take(b - 1 - a as int));
        }
        b = b - 1;
    }
    proof {
        let w = u.take(b - a as int);
        if b > a {
            assert(w.last() == v@[b - 1]);
            assert(!is_space(w.last()));
        }
        assert(trim_end(u) == w);
    }
    let mut r: Vec<char> = Vec::new();
    let mut t: usize = a;
    while t < b
        invariant
            a <= t <= b <= n,
            n == v@.len(),
            r@ == v@.subrange(a as int, t as int),
        decreases b - t,
    {
        r.push(v[t]);
        t = t + 1;
        proof {
            assert(r@ =~= v@.subrange(a as int, t as int));
        }
    }
    proof {
        assert(r@ =~= u.take(b - a as int));
    }
    r
}

/// Parses a desktop `Exec` line: removes field codes, expands `%i` to an
/// `--icon` argument, trims it and strips surrounding quotes.
pub fn parse_exec(raw: &str, icon: &str) -> (r: String)
    ensures
        r@ == parsed_exec(raw@, icon@),
{
    let cs = chars_vec(raw);
    let n = cs.len();
    // drop the field codes
    let mut t1: Vec<char> = Vec::new();
    let mut i: usize = 0;
    proof {
        assert(cs@.skip(0) =~= cs@);
        assert(t1@ + strip_codes(cs@) =~= strip_codes(cs@));
    }
    while i < n
        invariant
            i <= n,
            n == cs@.len(),
            cs@ == raw@,
            strip_codes(raw@) == t1@ + strip_codes(cs@.skip(i as int)),
        decreases n - i,
    {
        let ghost tail = cs@.skip(i as int);
        proof {
            assert(tail[0] == cs@[i as int]);
            assert(tail.drop_first() =~= cs@.skip(i as int + 1));
            if tail.len() >= 2 {
                assert(tail[1] == cs@[i as int + 1]);
                assert(tail.skip(2) =~= cs@.skip(i as int + 2));
            }
        }
        let c = cs[i];
        if c == '%' && i + 1 < n && exec_is_field_code(cs[i + 1]) {
            i = i + 2;
        } else {
            let ghost pre = t1@;
            t1.push(c);
            i = i + 1;
            proof {
                assert(pre + (seq![c] + strip_codes(cs@.skip(i as int))) =~= t1@ + strip_codes(
                    cs@.skip(i as int),
                ));
            }
        }
    }
    proof {
        assert(cs@.skip(n as int).len() == 0);
        assert(t1@ + strip_codes(cs@.skip(n as int)) =~= t1@);
    }
    // expand `%i`
    let m = t1.len();
    let mut t2: Vec<char> = Vec::new();
    let mut j: usize = 0;
    proof {
        assert(t1@.skip(0) =~= t1@);
        assert(t2@ + replace_icon(t1@, icon@) =~= replace_icon(t1@, icon@));
    }
    while j < m
        invariant
            j <= m,
            m == t1@.len(),
            t1@ == strip_codes(raw@),
            replace_icon(strip_codes(raw@), icon@) == t2@ + replace_icon(
                t1@.skip(j as int),
                icon@,
            ),
        decreases m - j,
    {
        let ghost tail = t1@.skip(j as int);
        proof {
            assert(tail[0] == t1@[j as int]);
            assert(tail.drop_first() =~= t1@.skip(j as int + 1));
            if tail.len() >= 2 {
                assert(tail[1] == t1@[j as int + 1]);
                assert(tail.skip(2) =~= t1@.skip(j as int + 2));
            }
        }
        let c = t1[j];
        if c == '%' && j + 1 < m && t1[j + 1] == 'i' {
            let ghost pre = t2@;
            extend_chars(&mut t2, "--icon ");
            extend_chars(&mut t2, icon);
            j = j + 2;
            proof {
                assert(pre + ("--icon "@ + icon@ + replace_icon(t1@.skip(j as int), icon@)) =~= t2@
                    + replace_icon(t1@.skip(j as int), icon@));
            }
        } else {
            let ghost pre = t2@;
            t2.push(c);
            j = j + 1;
            proof {
                assert(pre + (seq![c] + replace_icon(t1@.skip(j as int), icon@)) =~= t2@
                    + replace_icon(t1@.skip(j as int), icon@));
            }
        }
    }
    proof {
        assert(t1@.skip(m as int).len() == 0);
        assert(t2@ + replace_icon(t1@.skip(m as int), icon@) =~= t2@);
    }
    // trim and unquote
    let trimmed = trim_chars(&t2);
    let ghost tv = trimmed@;
    let k = trimmed.len();
    let start: usize = if k >= 1 && trimmed[0] == '"' {
        1
    } else {
        0
    };
    let end: usize = if k > start && trimmed[k - 1] == '"' {
        k - 1
    } else {
        k
    };
    let mut out: Vec<char> = Vec::new();
    let mut t: usize = start;
    while t < end
        invariant
            start <= t <= end <= k,
            k == tv.len(),
            tv == trimmed@,
            out@ == tv.subrange(start as int, t as int),
        decreases end - t,
    {
        out.push(trimmed[t]);
        t = t + 1;
        proof {
            assert(out@ =~= tv.subrange(start as int, t as int));
        }
    }
    proof {
        let a = if tv.len() >= 1 && tv[0] == '"' {
            tv.drop_first()
        } else {
            tv
        };
        if start == 1 {
            assert(a =~= tv.skip(1));
        }
        if a.len() >= 1 && a.last() == '"' {
            assert(out@ =~= a.drop_last());
        } else {
            assert(out@ =~= a);
        }
    }
    string_from_chars(&out)
}

/// A field code a desktop `Exec` line may carry.
fn exec_is_field_code(c: char) -> (r: bool)
    ensures
        r == is_field_code(c),
{
    c == 'f' || c == 'F' || c == 'u' || c == 'U' || c == 'd' || c == 'D' || c == 'n' || c == 'N'
        || c == 'v' || c == 'm' || c == 'c' || c == 'k'
}

/// A candidate item as plain values.
pub struct ItemView {
    pub display: Seq<char>,
    pub identity: Seq<char>,
    pub priority: int,
    pub source_order: int,
    pub description: Seq<char>,
    pub source_path: Seq<char>,
    pub search_desc: bool,
    pub icon: Seq<char>,
}

pub open spec fn item_view_of(it: FuzzyItem) -> ItemView {
    ItemView {
        display: it.display@,
        identity: it.identity@,
        priority: it.priority as int,
        source_order: it.source_order as int,
        description: it.description@,
        source_path: it.source_path@,
        search_desc: it.search_desc,
        icon: it.icon@,
    }
}

/// Key/value pairs, later writes to a key replacing the first earlier one.
pub open spec fn kv_upsert(
    m: Seq<(Seq<char>, Seq<char>)>,
    k: Seq<char>,
    v: Seq<char>,
) -> Seq<(Seq<char>, Seq<char>)>
    decreases m.len(),
{
    if m.len() == 0 {
        seq![(k, v)]
    } else if m[0].0 == k {
        seq![(k, v)] + m.drop_first()
    } else {
        seq![m[0]] + kv_upsert(m.drop_first(), k, v)
    }
}

pub open spec fn kv_get(m: Seq<(Seq<char>, Seq<char>)>, k: Seq<char>) -> Option<Seq<char>>
    decreases m.len(),
{
    if m.len() == 0 {
        None
    } else if m[0].0 == k {
        Some(m[0].1)
    } else {
        kv_get(m.drop_first(), k)
    }
}

pub open spec fn or_empty(o: Option<Seq<char>>) -> Seq<char> {
    match o {
        Some(v) => v,
        None => Seq::empty(),
    }
}

/// A key/value pair filed under its desktop-action section.
pub open spec fn act_upsert(
    a: Seq<(Seq<char>, Seq<(Seq<char>, Seq<char>)>)>,
    sec: Seq<char>,
    k: Seq<char>,
    v: Seq<char>,
) -> Seq<(Seq<char>, Seq<(Seq<char>, Seq<char>)>)>
    decreases a.len(),
{
    if a.len() == 0 {
        seq![(sec, seq![(k, v)])]
    } else if a[0].0 == sec {
        seq![(sec, kv_upsert(a[0].1, k, v))] + a.drop_first()
    } else {
        seq![a[0]] + act_upsert(a.drop_first(), sec, k, v)
    }
}

/// The first index of `c` in `s`, or the length when absent.
pub open spec fn find_char_at(s: Seq<char>, c: char) -> int
    decreases s.len(),
{
    if s.len() == 0 {
        0
    } else if s[0] == c {
        0
    } else {
        1 + find_char_at(s.drop_first(), c)
    }
}

pub open spec fn starts_with_seq(s: Seq<char>, p: Seq<char>) -> bool {
    p.len() <= s.len() && s.take(p.len() as int) == p
}

/// One line folded into the scan state (current section, main entry,
/// actions): a bracketed line switches the section; a line with `=` files its
/// trimmed key and value under the current section; anything else is skipped.
pub open spec fn scan_line(
    sec: Seq<char>,
    main: Seq<(Seq<char>, Seq<char>)>,
    acts: Seq<(Seq<char>, Seq<(Seq<char>, Seq<char>)>)>,
    line: Seq<char>,
) -> (Seq<char>, Seq<(Seq<char>, Seq<char>)>, Seq<(Seq<char>, Seq<(Seq<char>, Seq<char>)>)>) {
    if line.len() >= 2 && line[0] == '[' && line[line.len() - 1] == ']' {
        (line.subrange(1, line.len() - 1), main, acts)
    } else if has_char(line, '=') {
        let idx = find_char_at(line, '=');
        let key = trim_seq(line.take(idx));
        let value = trim_seq(line.skip(idx + 1));
        if sec == "Desktop Entry"@ {
            (sec, kv_upsert(main, key, value), acts)
        } else if starts_with_seq(sec, "Desktop Action"@) {
            (sec, main, act_upsert(acts, sec, key, value))
        } else {
            (sec, main, acts)
        }
    } else {
        (sec, main, acts)
    }
}

pub open spec fn scan_lines(
    sec: Seq<char>,
    main: Seq<(Seq<char>, Seq<char>)>,
    acts: Seq<(Seq<char>, Seq<(Seq<char>, Seq<char>)>)>,
    lines: Seq<Seq<char>>,
) -> (Seq<char>, Seq<(Seq<char>, Seq<char>)>, Seq<(Seq<char>, Seq<(Seq<char>, Seq<char>)>)>)
    decreases lines.len(),
{
    if lines.len() == 0 {
        (sec, main, acts)
    } else {
        let st = scan_line(sec, main, acts, lines[0]);
        scan_lines(st.0, st.1, st.2, lines.drop_first())
    }
}

/// The candidate a section's name, exec line and details yield.
pub open spec fn make_item_view(
    name: Seq<char>,
    exec_line: Seq<char>,
    description: Seq<char>,
    icon_field: Seq<char>,
    path: Seq<char>,
    section: Seq<char>,
    source_icon: Seq<char>,
) -> ItemView {
    let action = starts_with_seq(section, "Desktop Action"@);
    ItemView {
        display: if action {
            name + " ("@ + (if starts_with_seq(section, "Desktop Action "@) {
                section.skip("Desktop Action "@.len() as int)
            } else {
                section
            }) + ")"@
        } else {
            name
        },
        identity: parsed_exec(exec_line, icon_field),
        priority: 2,
        source_order: 0,
        description: if description.len() == 0 {
            "No description"@
        } else {
            description
        },
        source_path: if action {
            path + seq![':'] + section
        } else {
            path
        },
        search_desc: description.len() != 0,
        icon: source_icon,
    }
}

/// The candidate the `[Desktop Entry]` section yields, if it names both a
/// `Name` and an `Exec`.
pub open spec fn main_items(
    main: Seq<(Seq<char>, Seq<char>)>,
    path: Seq<char>,
    source_icon: Seq<char>,
) -> Seq<ItemView> {
    match (kv_get(main, "Name"@), kv_get(main, "Exec"@)) {
        (Some(name), Some(ex)) => seq![
            make_item_view(
                name,
                ex,
                or_empty(kv_get(main, "Comment"@)),
                or_empty(kv_get(main, "Icon"@)),
                path,
                "Desktop Entry"@,
                source_icon,
            ),
        ],
        _ => Seq::empty(),
    }
}

/// The candidates the desktop actions yield, in their order of appearance.
pub open spec fn action_items(
    acts: Seq<(Seq<char>, Seq<(Seq<char>, Seq<char>)>)>,
    main_icon: Seq<char>,
    path: Seq<char>,
    source_icon: Seq<char>,
) -> Seq<ItemView>
    decreases acts.len(),
{
    if acts.len() == 0 {
        Seq::empty()
    } else {
        let head = match (kv_get(acts[0].1, "Name"@), kv_get(acts[0].1, "Exec"@)) {
            (Some(name), Some(ex)) => seq![
                make_item_view(
                    name,
                    ex,
                    or_empty(kv_get(acts[0].1, "Comment"@)),
                    main_icon,
                    path,
                    acts[0].0,
                    source_icon,
                ),
            ],
            _ => Seq::<ItemView>::empty(),
        };
        head + action_items(acts.drop_first(), main_icon, path, source_icon)
    }
}

/// What parsing a desktop file's text yields: the main entry's candidate, if
/// any, then one per desktop action.
pub open spec fn desktop_items(contents: Seq<char>, path: Seq<char>, source_icon: Seq<char>) -> Seq<
    ItemView,
> {
    let st = scan_lines(Seq::empty(), Seq::empty(), Seq::empty(), split_on(contents, '\n'));
    main_items(st.1, path, source_icon) + action_items(
        st.2,
        or_empty(kv_get(st.1, "Icon"@)),
        path,
        source_icon,
    )
}

/// The key/value rows, as plain values.
pub open spec fn kv_view(m: Seq<(String, String)>) -> Seq<(Seq<char>, Seq<char>)> {
    m.map_values(|p: (String, String)| (p.0@, p.1@))
}

/// The action sections and their rows, as plain values.
pub open spec fn act_view(a: Seq<(String, Vec<(String, String)>)>) -> Seq<
    (Seq<char>, Seq<(Seq<char>, Seq<char>)>),
> {
    a.map_values(|p: (String, Vec<(String, String)>)| (p.0@, kv_view(p.1@)))
}

proof fn lemma_find_char_at(s: Seq<char>, c: char, t: int)
    requires
        0 <= t < s.len(),
        s[t] == c,
        forall|u: int| 0 <= u < t ==> s[u] != c,
    ensures
        find_char_at(s, c) == t,
    decreases t,
{
    if t > 0 {
        assert(forall|i: int|
            0 <= i < s.drop_first().len() ==> #[trigger] s.drop_first()[i] == s[i + 1]);
        lemma_find_char_at(s.drop_first(), c, t - 1);
    }
}

proof fn lemma_kv_upsert_at(m: Seq<(Seq<char>, Seq<char>)>, k: Seq<char>, v: Seq<char>, t: int)
    requires
        0 <= t < m.len(),
        m[t].0 == k,
        forall|u: int| 0 <= u < t ==> (#[trigger] m[u]).0 != k,
    ensures
        kv_upsert(m, k, v) == m.update(t, (k, v)),
    decreases t,
{
    if t == 0 {
        assert(kv_upsert(m, k, v) =~= m.update(0, (k, v)));
    } else {
        assert(forall|i: int|
            0 <= i < m.drop_first().len() ==> #[trigger] m.drop_first()[i] == m[i + 1]);
        lemma_kv_upsert_at(m.drop_first(), k, v, t - 1);
        assert(seq![m[0]] + m.drop_first().update(t - 1, (k, v)) =~= m.update(t, (k, v)));
    }
}

proof fn lemma_kv_upsert_missing(m: Seq<(Seq<char>, Seq<char>)>, k: Seq<char>, v: Seq<char>)
    requires
        forall|u: int| 0 <= u < m.len() ==> (#[trigger] m[u]).0 != k,
    ensures
        kv_upsert(m, k, v) == m.push((k, v)),
    decreases m.len(),
{
    if m.len() == 0 {
        assert(kv_upsert(m, k, v) =~= m.push((k, v)));
    } else {
        assert(forall|i: int|
            0 <= i < m.drop_first().len() ==> #[trigger] m.drop_first()[i] == m[i + 1]);
        lemma_kv_upsert_missing(m.drop_first(), k, v);
        assert(seq![m[0]] + m.drop_first().push((k, v)) =~= m.push((k, v)));
    }
}

proof fn lemma_act_upsert_at(
    a: Seq<(Seq<char>, Seq<(Seq<char>, Seq<char>)>)>,
    sec: Seq<char>,
    k: Seq<char>,
    v: Seq<char>,
    t: int,
)
    requires
        0 <= t < a.len(),
        a[t].0 == sec,
        forall|u: int| 0 <= u < t ==> (#[trigger] a[u]).0 != sec,
    ensures
        act_upsert(a, sec, k, v) == a.update(t, (sec, kv_upsert(a[t].1, k, v))),
    decreases t,
{
    if t == 0 {
        assert(act_upsert(a, sec, k, v) =~= a.update(0, (sec, kv_upsert(a[0].1, k, v))));
    } else {
        assert(forall|i: int|
            0 <= i < a.drop_first().len() ==> #[trigger] a.drop_first()[i] == a[i + 1]);
        lemma_act_upsert_at(a.drop_first(), sec, k, v, t - 1);
        assert(seq![a[0]] + a.drop_first().update(t - 1, (sec, kv_upsert(a[t].1, k, v)))
            =~= a.update(t, (sec, kv_upsert(a[t].1, k, v))));
    }
}

proof fn lemma_act_upsert_missing(
    a: Seq<(Seq<char>, Seq<(Seq<char>, Seq<char>)>)>,
    sec: Seq<char>,
    k: Seq<char>,
    v: Seq<char>,
)
    requires
        forall|u: int| 0 <= u < a.len() ==> (#[trigger] a[u]).0 != sec,
    ensures
        act_upsert(a, sec, k, v) == a.push((sec, seq![(k, v)])),
    decreases a.len(),
{
    if a.len() == 0 {
        assert(act_upsert(a, sec, k, v) =~= a.push((sec, seq![(k, v)])));
    } else {
        assert(forall|i: int|
            0 <= i < a.drop_first().len() ==> #[trigger] a.drop_first()[i] == a[i + 1]);
        lemma_act_upsert_missing(a.drop_first(), sec, k, v);
        assert(seq![a[0]] + a.drop_first().push((sec, seq![(k, v)])) =~= a.push(
            (sec, seq![(k, v)]),
        ));
    }
}

/// Whether `s` begins with `p`.
pub fn str_starts_with(s: &str, p: &str) -> (r: bool)
    ensures
        r == starts_with_seq(s@, p@),
{
    let pl = p.unicode_len();
    if pl > s.unicode_len() {
        return false;
    }
    let mut i: usize = 0;
    while i < pl
        invariant
            i <= pl,
            pl == p@.len(),
            pl <= s@.len(),
            forall|u: int| 0 <= u < i ==> s@[u] == p@[u],
        decreases pl - i,
    {
        if s.get_char(i) != p.get_char(i) {
            proof {
                assert(s@.take(pl as int)[i as int] != p@[i as int]);
            }
            return false;
        }
        i = i + 1;
    }
    proof {
        assert(s@.take(pl as int) =~= p@);
    }
    true
}

/// The first value filed under `key`, if any.
fn kv_get_row(m: &Vec<(String, String)>, key: &str) -> (r: Option<String>)
    ensures
        match r {
            Some(v) => kv_get(kv_view(m@), key@) == Some(v@),
            None => kv_get(kv_view(m@), key@) is None,
        },
{
    let ghost mv = kv_view(m@);
    let n = m.len();
    let mut t: usize = 0;
    proof {
        assert(mv.skip(0) =~= mv);
    }
    while t < n
        invariant
            t <= n,
            n == m@.len(),
            mv == kv_view(m@),
            mv.len() == n,
            kv_get(mv, key@) == kv_get(mv.skip(t as int), key@),
        decreases n - t,
    {
        proof {
            assert(mv.skip(t as int)[0] == mv[t as int]);
            assert(mv.skip(t as int).drop_first() =~= mv.skip(t as int + 1));
        }
        if crate::text::str_eq(m[t].0.as_str(), key) {
            return Some(m[t].1.clone());
        }
        t = t + 1;
    }
    proof {
        assert(mv.skip(n as int).len() == 0);
    }
    None
}

/// Files `key = value` into the rows, replacing the first earlier write.
fn kv_put(m: &mut Vec<(String, String)>, key: &Vec<char>, value: &Vec<char>)
    ensures
        kv_view(final(m)@) == kv_upsert(kv_view(old(m)@), key@, value@),
{
    let ghost mv = kv_view(old(m)@);
    let n = m.len();
    let mut t: usize = 0;
    while t < n
        invariant
            t <= n,
            n == m@.len(),
            m@ == old(m)@,
            mv == kv_view(m@),
            forall|u: int| 0 <= u < t ==> (#[trigger] mv[u]).0 != key@,
        decreases n - t,
    {
        if string_eq_chars(&m[t].0, key) {
            proof {
                assert(mv[t as int].0 == key@);
                lemma_kv_upsert_at(mv, key@, value@, t as int);
            }
            let _old = m.remove(t);
            m.insert(t, (string_from_chars(key), string_from_chars(value)));
            proof {
                assert(kv_view(m@) =~= mv.update(t as int, (key@, value@)));
            }
            return ;
        }
        t = t + 1;
    }
    proof {
        lemma_kv_upsert_missing(mv, key@, value@);
    }
    m.push((string_from_chars(key), string_from_chars(value)));
    proof {
        assert(kv_view(m@) =~= mv.push((key@, value@)));
    }
}

/// Files `key = value` under the desktop-action section `sec`.
fn act_put(a: &mut Vec<(String, Vec<(String, String)>)>, sec: &String, key: &Vec<char>, value: &Vec<char>)
    ensures
        act_view(final(a)@) == act_upsert(act_view(old(a)@), sec@, key@, value@),
{
    let ghost av = act_view(old(a)@);
    let n = a.len();
    let mut t: usize = 0;
    while t < n
        invariant
            t <= n,
            n == a@.len(),
            a@ == old(a)@,
            av == act_view(a@),
            forall|u: int| 0 <= u < t ==> (#[trigger] av[u]).0 != sec@,
        decreases n - t,
    {
        if a[t].0 == *sec {
            proof {
                assert(av[t as int].0 == sec@);
                assert(av[t as int].1 == kv_view(a@[t as int].1@));
                lemma_act_upsert_at(av, sec@, key@, value@, t as int);
            }
            let (s, mut inner) = a.remove(t);
            kv_put(&mut inner, key, value);
            a.insert(t, (s, inner));
            proof {
                assert(act_view(a@) =~= av.update(
                    t as int,
                    (sec@, kv_upsert(av[t as int].1, key@, value@)),
                ));
            }
            return ;
        }
        t = t + 1;
    }
    proof {
        lemma_act_upsert_missing(av, sec@, key@, value@);
    }
    let mut inner: Vec<(String, String)> = Vec::new();
    inner.push((string_from_chars(key), string_from_chars(value)));
    a.push((sec.clone(), inner));
    proof {
        assert(kv_view(a@[a@.len() - 1].1@) =~= seq![(key@, value@)]);
        assert(act_view(a@) =~= av.push((sec@, seq![(key@, value@)])));
    }
}

/// Folds one line into the scan state.
fn scan_step(
    cur: &mut String,
    main: &mut Vec<(String, String)>,
    acts: &mut Vec<(String, Vec<(String, String)>)>,
    line: &Vec<char>,
)
    ensures
        ({
            let st = scan_line(old(cur)@, kv_view(old(main)@), act_view(old(acts)@), line@);
            final(cur)@ == st.0 && kv_view(final(main)@) == st.1 && act_view(final(acts)@) == st.2
        }),
{
    let lv = line.len();
    if lv >= 2 && line[0] == '[' && line[lv - 1] == ']' {
        let mut sec: Vec<char> = Vec::new();
        let mut t: usize = 1;
        while t < lv - 1
            invariant
                1 <= t <= lv - 1,
                lv == line@.len(),
                sec@ == line@.subrange(1, t as int),
            decreases lv - t,
        {
            sec.push(line[t]);
            t = t + 1;
            proof {
                assert(sec@ =~= line@.subrange(1, t as int));
            }
        }
        *cur = string_from_chars(&sec);
        return ;
    }
    // look for the first `=`
    let mut idx: usize = 0;
    while idx < lv && line[idx] != '='
        invariant
            idx <= lv,
            lv == line@.len(),
            forall|u: int| 0 <= u < idx ==> line@[u] != '=',
        decreases lv - idx,
    {
        idx = idx + 1;
    }
    if idx == lv {
        proof {
            assert(!has_char(line@, '='));
        }
        return ;
    }
    proof {
        assert(line@[idx as int] == '=');
        assert(has_char(line@, '='));
        lemma_find_char_at(line@, '=', idx as int);
    }
    let mut before: Vec<char> = Vec::new();
    let mut t: usize = 0;
    while t < idx
        invariant
            t <= idx <= lv,
            lv == line@.len(),
            before@ == line@.subrange(0, t as int),
        decreases idx - t,
    {
        before.push(line[t]);
        t = t + 1;
        proof {
            assert(before@ =~= line@.subrange(0, t as int));
        }
    }
    proof {
        assert(before@ =~= line@.take(idx as int));
    }
    let mut after: Vec<char> = Vec::new();
    let mut t2: usize = idx + 1;
    while t2 < lv
        invariant
            idx + 1 <= t2 <= lv,
            lv == line@.len(),
            after@ == line@.subrange(idx as int + 1, t2 as int),
        decreases lv - t2,
    {
        after.push(line[t2]);
        t2 = t2 + 1;
        proof {
            assert(after@ =~= line@.subrange(idx as int + 1, t2 as int));
        }
    }
    proof {
        assert(after@ =~= line@.skip(idx as int + 1));
    }
    let key = trim_chars(&before);
    let value = trim_chars(&after);
    if crate::text::str_eq(cur.as_str(), "Desktop Entry") {
        kv_put(main, &key, &value);
    } else if str_starts_with(cur.as_str(), "Desktop Action") {
        let sec = cur.clone();
        act_put(acts, &sec, &key, &value);
    }
}

/// One launchable candidate built from a parsed desktop section.
pub fn create_fuzzy_item(
    name: &String,
    exec_line: &String,
    description: &String,
    icon_field: &String,
    path: &str,
    section: &str,
    source_icon: &str,
) -> (r: FuzzyItem)
    ensures
        item_view_of(r) == make_item_view(
            name@,
            exec_line@,
            description@,
            icon_field@,
            path@,
            section@,
            source_icon@,
        ),
{
    let action = str_starts_with(section, "Desktop Action");
    let source_path: String = if action {
        let mut sp: Vec<char> = Vec::new();
        extend_chars(&mut sp, path);
        sp.push(':');
        extend_chars(&mut sp, section);
        proof {
            assert(sp@ =~= path@ + seq![':'] + section@);
        }
        string_from_chars(&sp)
    } else {
        String::from_str(path)
    };
    let display: String = if action {
        let stripped: String = if str_starts_with(section, "Desktop Action ") {
            let pl = "Desktop Action ".unicode_len();
            let sl = section.unicode_len();
            let mut sv: Vec<char> = Vec::new();
            let mut t: usize = pl;
            while t < sl
                invariant
                    pl <= t <= sl,
                    sl == section@.len(),
                    pl == "Desktop Action "@.len(),
                    sv@ == section@.subrange(pl as int, t as int),
                decreases sl - t,
            {
                sv.push(section.get_char(t));
                t = t + 1;
                proof {
                    assert(sv@ =~= section@.subrange(pl as int, t as int));
                }
            }
            proof {
                assert(sv@ =~= section@.skip(pl as int));
            }
            string_from_chars(&sv)
        } else {
            String::from_str(section)
        };
        let mut dv: Vec<char> = Vec::new();
        extend_chars(&mut dv, name.as_str());
        extend_chars(&mut dv, " (");
        extend_chars(&mut dv, stripped.as_str());
        extend_chars(&mut dv, ")");
        proof {
            assert(dv@ =~= name@ + " ("@ + stripped@ + ")"@);
        }
        string_from_chars(&dv)
    } else {
        name.clone()
    };
    let no_desc = description.as_str().unicode_len() == 0;
    let (desc, search_desc): (String, bool) = if no_desc {
        (String::from_str("No description"), false)
    } else {
        (description.clone(), true)
    };
    let identity = parse_exec(exec_line.as_str(), icon_field.as_str());
    FuzzyItem {
        display,
        identity,
        priority: 2,
        source_order: 0,
        description: desc,
        source_path,
        search_desc,
        icon: String::from_str(source_icon),
    }
}

/// Parses a desktop file's text into its launchable candidates: the main
/// `[Desktop Entry]`, then one per `[Desktop Action ...]` section, each named
/// and described by its own keys.
pub fn parse_desktop_file(contents: &str, path: &str, icon: &str) -> (items: Vec<FuzzyItem>)
    ensures
        items@.map_values(|it: FuzzyItem| item_view_of(it)) == desktop_items(
            contents@,
            path@,
            icon@,
        ),
{
    let cs = chars_vec(contents);
    let pieces = split_chars(&cs, '\n');
    let ghost lines = split_on(contents@, '\n');
    let mut cur: String = String::new();
    let mut main: Vec<(String, String)> = Vec::new();
    let mut acts: Vec<(String, Vec<(String, String)>)> = Vec::new();
    let np = pieces.len();
    let mut k: usize = 0;
    proof {
        assert(lines.skip(0) =~= lines);
        assert(kv_view(main@) =~= Seq::<(Seq<char>, Seq<char>)>::empty());
        assert(act_view(acts@) =~= Seq::<(Seq<char>, Seq<(Seq<char>, Seq<char>)>)>::empty());
    }
    while k < np
        invariant
            k <= np,
            np == pieces@.len(),
            views_of_vecs(pieces@) == lines,
            lines == split_on(contents@, '\n'),
            scan_lines(Seq::empty(), Seq::empty(), Seq::empty(), lines) == scan_lines(
                cur@,
                kv_view(main@),
                act_view(acts@),
                lines.skip(k as int),
            ),
        decreases np - k,
    {
        proof {
            assert(lines.skip(k as int).len() > 0);
            assert(lines.skip(k as int)[0] == lines[k as int]);
            assert(lines.skip(k as int).drop_first() =~= lines.skip(k as int + 1));
            assert(lines[k as int] == pieces@[k as int]@);
        }
        scan_step(&mut cur, &mut main, &mut acts, &pieces[k]);
        k = k + 1;
    }
    proof {
        assert(lines.skip(np as int).len() == 0);
    }
    let ghost st = scan_lines(Seq::empty(), Seq::empty(), Seq::empty(), lines);
    proof {
        assert(st.1 == kv_view(main@));
        assert(st.2 == act_view(acts@));
    }
    let main_icon: String = match kv_get_row(&main, "Icon") {
        Some(v) => v,
        None => String::new(),
    };
    let mut items: Vec<FuzzyItem> = Vec::new();
    match (kv_get_row(&main, "Name"), kv_get_row(&main, "Exec")) {
        (Some(name), Some(ex)) => {
            let comment: String = match kv_get_row(&main, "Comment") {
                Some(v) => v,
                None => String::new(),
            };
            let item = create_fuzzy_item(
                &name,
                &ex,
                &comment,
                &main_icon,
                path,
                "Desktop Entry",
                icon,
            );
            items.push(item);
            proof {
                assert(items@.map_values(|it: FuzzyItem| item_view_of(it)) =~= main_items(
                    st.1,
                    path@,
                    icon@,
                ));
            }
        },
        _ => {
            proof {
                assert(items@.map_values(|it: FuzzyItem| item_view_of(it)) =~= main_items(
                    st.1,
                    path@,
                    icon@,
                ));
            }
        },
    }
    let ghost mi = or_empty(kv_get(st.1, "Icon"@));
    proof {
        assert(main_icon@ == mi);
    }
    let na = acts.len();
    let mut t: usize = 0;
    proof {
        assert(act_view(acts@).skip(0) =~= act_view(acts@));
    }
    while t < na
        invariant
            t <= na,
            na == acts@.len(),
            main_icon@ == mi,
            st.2 == act_view(acts@),
            desktop_items(contents@, path@, icon@) == items@.map_values(
                |it: FuzzyItem| item_view_of(it),
            ) + action_items(act_view(acts@).skip(t as int), mi, path@, icon@),
        decreases na - t,
    {
        let ghost av = act_view(acts@);
        proof {
            assert(av.skip(t as int).len() > 0);
            assert(av.skip(t as int)[0] == av[t as int]);
            assert(av.skip(t as int).drop_first() =~= av.skip(t as int + 1));
            assert(av[t as int].1 == kv_view(acts@[t as int].1@));
            assert(av[t as int].0 == acts@[t as int].0@);
        }
        let ghost pre = items@;
        match (kv_get_row(&acts[t].1, "Name"), kv_get_row(&acts[t].1, "Exec")) {
            (Some(name), Some(ex)) => {
                let comment: String = match kv_get_row(&acts[t].1, "Comment") {
                    Some(v) => v,
                    None => String::new(),
                };
                let section = acts[t].0.clone();
                let item = create_fuzzy_item(
                    &name,
                    &ex,
                    &comment,
                    &main_icon,
                    path,
                    section.as_str(),
                    icon,
                );
                items.push(item);
                proof {
                    assert(items@.map_values(|it: FuzzyItem| item_view_of(it)) =~= pre.map_values(
                        |it: FuzzyItem| item_view_of(it),
                    ) + action_items(av.skip(t as int), mi, path@, icon@).take(1));
                    assert(pre.map_values(|it: FuzzyItem| item_view_of(it)) + action_items(
                        av.skip(t as int),
                        mi,
                        path@,
                        icon@,
                    ) =~= items@.map_values(|it: FuzzyItem| item_view_of(it)) + action_items(
                        av.skip(t as int + 1),
                        mi,
                        path@,
                        icon@,
                    ));
                }
            },
            _ => {
                proof {
                    assert(action_items(av.skip(t as int), mi, path@, icon@) =~= action_items(
                        av.skip(t as int + 1),
                        mi,
                        path@,
                        icon@,
                    ));
                }
            },
        }
        t = t + 1;
    }
    proof {
        assert(act_view(acts@).skip(na as int).len() == 0);
        assert(items@.map_values(|it: FuzzyItem| item_view_of(it)) + action_items(
            act_view(acts@).skip(na as int),
            mi,
            path@,
            icon@,
        ) =~= items@.map_values(|it: FuzzyItem| item_view_of(it)));
    }
    items
}

} // verus!
