//! The usage-history store: a mapping from item identity to a usage count,
//! rendered to and parsed from a newline-delimited, tab-separated text store.
//!
//! The store itself does no I/O: it is built from the stored text (or from
//! nothing, in which case it is a permanent no-op) and hands the re-rendered
//! text back after every recorded use.

use crate::text::{
    chars_vec, extend_chars, has_char, lemma_split_concat_sep, lemma_split_no_sep, split_chars,
    split_on, str_eq, string_eq_chars, string_from_chars, views_of_vecs,
};
use vstd::prelude::*;
use vstd::string::StringExecFns;

verus! {

/// A decimal digit.
pub open spec fn is_digit(c: char) -> bool {
    48 <= c as u32 <= 57
}

pub open spec fn all_digits(s: Seq<char>) -> bool {
    forall|i: int| 0 <= i < s.len() ==> is_digit(#[trigger] s[i])
}

/// The digit character for a value below ten.
pub open spec fn digit_char(d: int) -> char {
    if d == 0 {
        '0'
    } else if d == 1 {
        '1'
    } else if d == 2 {
        '2'
    } else if d == 3 {
        '3'
    } else if d == 4 {
        '4'
    } else if d == 5 {
        '5'
    } else if d == 6 {
        '6'
    } else if d == 7 {
        '7'
    } else if d == 8 {
        '8'
    } else {
        '9'
    }
}

/// The decimal digits of a non-negative number, most significant first.
pub open spec fn dec_seq(n: int) -> Seq<char>
    decreases n,
{
    if n < 10 {
        seq![digit_char(n)]
    } else {
        dec_seq(n / 10).push(digit_char(n % 10))
    }
}

/// The value of a digit string.
pub open spec fn dec_val(s: Seq<char>) -> int
    decreases s.len(),
{
    if s.len() == 0 {
        0
    } else {
        dec_val(s.drop_last()) * 10 + (s.last() as u32 - 48)
    }
}

/// What parsing a count field yields: the value of a nonempty all-digit field
/// that fits in `u32`, and nothing otherwise.
pub open spec fn parse_count(s: Seq<char>) -> Option<u32> {
    if s.len() > 0 && all_digits(s) && dec_val(s) <= u32::MAX as int {
        Some(dec_val(s) as u32)
    } else {
        None
    }
}

pub proof fn lemma_dec_seq(n: int)
    requires
        0 <= n,
    ensures
        dec_seq(n).len() >= 1,
        all_digits(dec_seq(n)),
        dec_val(dec_seq(n)) == n,
    decreases n,
{
    if n < 10 {
        assert(dec_seq(n) =~= seq![digit_char(n)]);
        assert(dec_seq(n).drop_last() =~= Seq::<char>::empty());
        assert(dec_val(Seq::<char>::empty()) == 0);
        assert(dec_val(dec_seq(n)) == dec_val(dec_seq(n).drop_last()) * 10 + (dec_seq(n).last()
            as u32 - 48));
        assert(dec_seq(n).last() == digit_char(n));
        assert(digit_char(n) as u32 - 48 == n);
    } else {
        lemma_dec_seq(n / 10);
        let s = dec_seq(n);
        assert(s == dec_seq(n / 10).push(digit_char(n % 10)));
        assert(s.drop_last() =~= dec_seq(n / 10));
        assert(s.last() == digit_char(n % 10));
        assert(digit_char(n % 10) as u32 - 48 == n % 10);
    }
}

/// Digits are neither tabs nor newlines.
pub proof fn lemma_digits_clean(s: Seq<char>)
    requires
        all_digits(s),
    ensures
        !has_char(s, '\t'),
        !has_char(s, '\n'),
{
    assert(forall|i: int| 0 <= i < s.len() ==> is_digit(#[trigger] s[i]));
}

/// Appends the decimal digits of `x` to `out`.
pub fn push_dec(out: &mut Vec<char>, x: u32)
    ensures
        final(out)@ == old(out)@ + dec_seq(x as int),
    decreases x,
{
    if x < 10 {
        let d: u32 = x;
        let c: char = if d == 0 {
            '0'
        } else if d == 1 {
            '1'
        } else if d == 2 {
            '2'
        } else if d == 3 {
            '3'
        } else if d == 4 {
            '4'
        } else if d == 5 {
            '5'
        } else if d == 6 {
            '6'
        } else if d == 7 {
            '7'
        } else if d == 8 {
            '8'
        } else {
            '9'
        };
        proof {
            assert(c == digit_char(x as int));
        }
        out.push(c);
        proof {
            assert(out@ =~= old(out)@ + dec_seq(x as int));
        }
    } else {
        let ghost pre = out@;
        push_dec(out, x / 10);
        let d: u32 = x % 10;
        let c: char = if d == 0 {
            '0'
        } else if d == 1 {
            '1'
        } else if d == 2 {
            '2'
        } else if d == 3 {
            '3'
        } else if d == 4 {
            '4'
        } else if d == 5 {
            '5'
        } else if d == 6 {
            '6'
        } else if d == 7 {
            '7'
        } else if d == 8 {
            '8'
        } else {
            '9'
        };
        proof {
            assert(c == digit_char(x as int % 10));
        }
        out.push(c);
        proof {
            assert(out@ =~= pre + dec_seq(x as int));
        }
    }
}

pub proof fn lemma_dec_val_nonneg(s: Seq<char>)
    requires
        all_digits(s),
    ensures
        dec_val(s) >= 0,
    decreases s.len(),
{
    if s.len() > 0 {
        assert(all_digits(s.drop_last())) by {
            assert(forall|i: int|
                0 <= i < s.drop_last().len() ==> #[trigger] s.drop_last()[i] == s[i]);
        }
        lemma_dec_val_nonneg(s.drop_last());
    }
}

/// The value of a digit string is at least the value of any of its prefixes.
pub proof fn lemma_dec_val_prefix(s: Seq<char>, k: int)
    requires
        all_digits(s),
        0 <= k <= s.len(),
    ensures
        0 <= dec_val(s.take(k)) <= dec_val(s),
    decreases s.len() - k,
{
    assert(all_digits(s.take(k))) by {
        assert(forall|i: int| 0 <= i < k ==> #[trigger] s.take(k)[i] == s[i]);
    }
    lemma_dec_val_nonneg(s.take(k));
    if k == s.len() {
        assert(s.take(k) =~= s);
    } else {
        assert(s.take(k + 1).drop_last() =~= s.take(k));
        assert(s.take(k + 1).last() == s[k]);
        assert(dec_val(s.take(k + 1)) == dec_val(s.take(k)) * 10 + (s[k] as u32 - 48));
        assert(dec_val(s.take(k)) * 10 >= dec_val(s.take(k))) by (nonlinear_arith)
            requires
                dec_val(s.take(k)) >= 0,
        ;
        lemma_dec_val_prefix(s, k + 1);
    }
}

/// Parses a nonempty all-digit field that fits in `u32`.
pub fn parse_u32_chars(v: &Vec<char>) -> (r: Option<u32>)
    ensures
        r == parse_count(v@),
{
    let n = v.len();
    if n == 0 {
        return None;
    }
    let mut acc: u32 = 0;
    let mut i: usize = 0;
    while i < n
        invariant
            i <= n,
            n == v@.len(),
            all_digits(v@.take(i as int)),
            acc as int == dec_val(v@.take(i as int)),
        decreases n - i,
    {
        let c = v[i];
        let cv = c as u32;
        if cv < 48 || cv > 57 {
            proof {
                assert(!is_digit(v@[i as int]));
                assert(!all_digits(v@));
            }
            return None;
        }
        let d: u32 = cv - 48;
        proof {
            assert(v@.take(i as int + 1).drop_last() =~= v@.take(i as int));
            assert(v@.take(i as int + 1).last() == v@[i as int]);
            assert(is_digit(v@[i as int]));
            assert(forall|t: int| 0 <= t < i as int ==> is_digit(#[trigger] v@.take(i as int)[t]));
            assert(forall|t: int| 0 <= t < i as int ==> v@.take(i as int)[t] == v@[t]);
            assert(forall|t: int| 0 <= t < i as int ==> is_digit(#[trigger] v@[t]));
            assert(forall|t: int|
                0 <= t < i as int + 1 ==> #[trigger] v@.take(i as int + 1)[t] == v@[t]);
            assert(all_digits(v@.take(i as int + 1)));
        }
        let wide: u64 = (acc as u64) * 10 + (d as u64);
        if wide > u32::MAX as u64 {
            proof {
                assert(dec_val(v@.take(i as int + 1)) == wide as int);
                if all_digits(v@) {
                    lemma_dec_val_prefix(v@, i as int + 1);
                    assert(!(dec_val(v@) <= u32::MAX as int));
                }
            }
            return None;
        }
        acc = wide as u32;
        i = i + 1;
    }
    proof {
        assert(v@.take(n as int) =~= v@);
    }
    Some(acc)
}

/// The identity/count rows of the store, as plain values.
pub open spec fn rows_view(s: Seq<(String, u32)>) -> Seq<(Seq<char>, u32)> {
    s.map_values(|p: (String, u32)| (p.0@, p.1))
}

/// The count stored for `key`, zero when absent.
pub open spec fn lookup(rows: Seq<(Seq<char>, u32)>, key: Seq<char>) -> u32
    decreases rows.len(),
{
    if rows.len() == 0 {
        0
    } else if rows[0].0 == key {
        rows[0].1
    } else {
        lookup(rows.drop_first(), key)
    }
}

pub open spec fn contains_key(rows: Seq<(Seq<char>, u32)>, key: Seq<char>) -> bool {
    exists|i: int| 0 <= i < rows.len() && (#[trigger] rows[i]).0 == key
}

/// No identity occurs twice.
pub open spec fn unique_keys(rows: Seq<(Seq<char>, u32)>) -> bool {
    forall|i: int, j: int|
        0 <= i < j < rows.len() ==> (#[trigger] rows[i]).0 != (#[trigger] rows[j]).0
}

/// Replaces the first row with this key, or appends a new one.
pub open spec fn upsert(rows: Seq<(Seq<char>, u32)>, key: Seq<char>, v: u32) -> Seq<
    (Seq<char>, u32),
>
    decreases rows.len(),
{
    if rows.len() == 0 {
        seq![(key, v)]
    } else if rows[0].0 == key {
        seq![(key, v)] + rows.drop_first()
    } else {
        seq![rows[0]] + upsert(rows.drop_first(), key, v)
    }
}

/// How `contains_key`, `unique_keys` and `lookup` read on a row prepended to
/// a tail.
pub proof fn lemma_cons_facts(h: (Seq<char>, u32), t: Seq<(Seq<char>, u32)>, k2: Seq<char>)
    ensures
        contains_key(seq![h] + t, k2) == (h.0 == k2 || contains_key(t, k2)),
        unique_keys(seq![h] + t) == (!contains_key(t, h.0) && unique_keys(t)),
        lookup(seq![h] + t, k2) == (if h.0 == k2 {
            h.1
        } else {
            lookup(t, k2)
        }),
{
    let u = seq![h] + t;
    assert(u[0] == h);
    assert(u.drop_first() =~= t);
    assert(forall|i: int| 0 <= i < t.len() ==> #[trigger] t[i] == u[i + 1]);
    if h.0 == k2 || contains_key(t, k2) {
        if h.0 == k2 {
            assert(u[0].0 == k2);
        } else {
            let i = choose|i: int| 0 <= i < t.len() && (#[trigger] t[i]).0 == k2;
            assert(u[i + 1].0 == k2);
        }
        assert(contains_key(u, k2));
    }
    if contains_key(u, k2) {
        let i = choose|i: int| 0 <= i < u.len() && (#[trigger] u[i]).0 == k2;
        if i == 0 {
            assert(h.0 == k2);
        } else {
            assert(t[i - 1].0 == k2);
            assert(contains_key(t, k2));
        }
    }
    if unique_keys(u) {
        assert forall|i: int, j: int| 0 <= i < j < t.len() implies (#[trigger] t[i]).0 != (
        #[trigger] t[j]).0 by {
            assert(u[i + 1].0 != u[j + 1].0);
        }
        if contains_key(t, h.0) {
            let i = choose|i: int| 0 <= i < t.len() && (#[trigger] t[i]).0 == h.0;
            assert(u[0].0 == u[i + 1].0);
            assert(false);
        }
    }
    if !contains_key(t, h.0) && unique_keys(t) {
        assert forall|i: int, j: int| 0 <= i < j < u.len() implies (#[trigger] u[i]).0 != (
        #[trigger] u[j]).0 by {
            if i == 0 {
                if u[j].0 == h.0 {
                    assert(t[j - 1].0 == h.0);
                    assert(contains_key(t, h.0));
                }
            } else {
                assert(t[i - 1].0 != t[j - 1].0);
            }
        }
    }
}

pub proof fn lemma_upsert_lookup(rows: Seq<(Seq<char>, u32)>, key: Seq<char>, v: u32, k2: Seq<char>)
    ensures
        lookup(upsert(rows, key, v), key) == v,
        k2 != key ==> lookup(upsert(rows, key, v), k2) == lookup(rows, k2),
        contains_key(upsert(rows, key, v), key),
        k2 != key ==> contains_key(upsert(rows, key, v), k2) == contains_key(rows, k2),
        unique_keys(rows) ==> unique_keys(upsert(rows, key, v)),
    decreases rows.len(),
{
    if rows.len() == 0 {
        let u = upsert(rows, key, v);
        assert(u =~= seq![(key, v)] + Seq::<(Seq<char>, u32)>::empty());
        lemma_cons_facts((key, v), Seq::empty(), k2);
        lemma_cons_facts((key, v), Seq::empty(), key);
    } else if rows[0].0 == key {
        assert(rows =~= seq![rows[0]] + rows.drop_first());
        lemma_cons_facts(rows[0], rows.drop_first(), k2);
        lemma_cons_facts(rows[0], rows.drop_first(), key);
        lemma_cons_facts((key, v), rows.drop_first(), k2);
        lemma_cons_facts((key, v), rows.drop_first(), key);
    } else {
        lemma_upsert_lookup(rows.drop_first(), key, v, k2);
        lemma_upsert_lookup(rows.drop_first(), key, v, rows[0].0);
        assert(rows =~= seq![rows[0]] + rows.drop_first());
        lemma_cons_facts(rows[0], rows.drop_first(), k2);
        lemma_cons_facts(rows[0], rows.drop_first(), key);
        lemma_cons_facts(rows[0], upsert(rows.drop_first(), key, v), k2);
        lemma_cons_facts(rows[0], upsert(rows.drop_first(), key, v), key);
        lemma_cons_facts(rows[0], upsert(rows.drop_first(), key, v), rows[0].0);
        lemma_cons_facts(rows[0], rows.drop_first(), rows[0].0);
    }
}

/// One parsed line folded into the rows: a line with exactly two tab-separated
/// fields whose second field is a valid count updates the rows, anything else
/// is skipped.
pub open spec fn fold_line(rows: Seq<(Seq<char>, u32)>, line: Seq<char>) -> Seq<(Seq<char>, u32)> {
    let fields = split_on(line, '\t');
    if fields.len() == 2 && parse_count(fields[1]) is Some {
        upsert(rows, fields[0], parse_count(fields[1])->0)
    } else {
        rows
    }
}

pub open spec fn fold_lines(rows: Seq<(Seq<char>, u32)>, lines: Seq<Seq<char>>) -> Seq<
    (Seq<char>, u32),
>
    decreases lines.len(),
{
    if lines.len() == 0 {
        rows
    } else {
        fold_lines(fold_line(rows, lines[0]), lines.drop_first())
    }
}

/// What loading a stored history text yields.
pub open spec fn parse_hist(text: Seq<char>) -> Seq<(Seq<char>, u32)> {
    fold_lines(Seq::empty(), split_on(text, '\n'))
}

/// The text a history store renders to: one `identity<TAB>count` line per row.
pub open spec fn render_hist(rows: Seq<(Seq<char>, u32)>) -> Seq<char>
    decreases rows.len(),
{
    if rows.len() == 0 {
        Seq::empty()
    } else {
        rows[0].0 + seq!['\t'] + dec_seq(rows[0].1 as int) + seq!['\n'] + render_hist(
            rows.drop_first(),
        )
    }
}

pub proof fn lemma_fold_lines_unique(rows: Seq<(Seq<char>, u32)>, lines: Seq<Seq<char>>)
    requires
        unique_keys(rows),
    ensures
        unique_keys(fold_lines(rows, lines)),
    decreases lines.len(),
{
    if lines.len() > 0 {
        let fields = split_on(lines[0], '\t');
        if fields.len() == 2 && parse_count(fields[1]) is Some {
            lemma_upsert_lookup(rows, fields[0], parse_count(fields[1])->0, fields[0]);
        }
        lemma_fold_lines_unique(fold_line(rows, lines[0]), lines.drop_first());
    }
}

/// Parsing a freshly loaded store always yields unique identities.
pub proof fn lemma_parse_hist_unique(text: Seq<char>)
    ensures
        unique_keys(parse_hist(text)),
{
    lemma_fold_lines_unique(Seq::empty(), split_on(text, '\n'));
}

/// Replacing the first row holding `key` is an update in place.
pub proof fn lemma_upsert_at(rows: Seq<(Seq<char>, u32)>, key: Seq<char>, v: u32, t: int)
    requires
        0 <= t < rows.len(),
        rows[t].0 == key,
        forall|u: int| 0 <= u < t ==> (#[trigger] rows[u]).0 != key,
    ensures
        upsert(rows, key, v) == rows.update(t, (key, v)),
    decreases t,
{
    if t == 0 {
        assert(upsert(rows, key, v) =~= rows.update(0, (key, v)));
    } else {
        assert(rows[0].0 != key);
        assert(forall|i: int|
            0 <= i < rows.drop_first().len() ==> #[trigger] rows.drop_first()[i] == rows[i + 1]);
        lemma_upsert_at(rows.drop_first(), key, v, t - 1);
        assert(seq![rows[0]] + rows.drop_first().update(t - 1, (key, v)) =~= rows.update(
            t,
            (key, v),
        ));
    }
}

/// Upserting an absent key appends it.
pub proof fn lemma_upsert_missing(rows: Seq<(Seq<char>, u32)>, key: Seq<char>, v: u32)
    requires
        !contains_key(rows, key),
    ensures
        upsert(rows, key, v) == rows.push((key, v)),
    decreases rows.len(),
{
    if rows.len() == 0 {
        assert(upsert(rows, key, v) =~= rows.push((key, v)));
    } else {
        assert(rows[0].0 != key);
        assert(!contains_key(rows.drop_first(), key)) by {
            if contains_key(rows.drop_first(), key) {
                let i = choose|i: int|
                    0 <= i < rows.drop_first().len() && (#[trigger] rows.drop_first()[i]).0 == key;
                assert(rows[i + 1].0 == key);
            }
        }
        lemma_upsert_missing(rows.drop_first(), key, v);
        assert(seq![rows[0]] + rows.drop_first().push((key, v)) =~= rows.push((key, v)));
    }
}

/// Law: a store rendered from unique, tab- and newline-free identities parses
/// back to exactly the same rows.
pub proof fn lemma_history_round_trip(rows: Seq<(Seq<char>, u32)>)
    requires
        unique_keys(rows),
        forall|i: int|
            0 <= i < rows.len() ==> !has_char((#[trigger] rows[i]).0, '\t') && !has_char(
                rows[i].0,
                '\n',
            ),
    ensures
        parse_hist(render_hist(rows)) == rows,
{
    lemma_render_parse(Seq::empty(), rows);
    assert(Seq::<(Seq<char>, u32)>::empty() + rows =~= rows);
}

proof fn lemma_render_parse(acc: Seq<(Seq<char>, u32)>, rows: Seq<(Seq<char>, u32)>)
    requires
        unique_keys(rows),
        forall|i: int|
            0 <= i < rows.len() ==> !has_char((#[trigger] rows[i]).0, '\t') && !has_char(
                rows[i].0,
                '\n',
            ),
        forall|i: int| 0 <= i < rows.len() ==> !contains_key(acc, (#[trigger] rows[i]).0),
    ensures
        fold_lines(acc, split_on(render_hist(rows), '\n')) == acc + rows,
    decreases rows.len(),
{
    if rows.len() == 0 {
        assert(render_hist(rows) =~= Seq::<char>::empty());
        let lines = split_on(Seq::<char>::empty(), '\n');
        assert(lines == seq![Seq::<char>::empty()]);
        assert(split_on(Seq::<char>::empty(), '\t').len() == 1);
        assert(fold_line(acc, Seq::<char>::empty()) == acc);
        assert(lines.drop_first() =~= Seq::<Seq<char>>::empty());
        assert(lines[0] =~= Seq::<char>::empty());
        assert(fold_lines(acc, lines) == fold_lines(fold_line(acc, lines[0]), lines.drop_first()));
        assert(fold_lines(acc, lines) == acc);
        assert(acc + rows =~= acc);
    } else {
        let k0 = rows[0].0;
        let c0 = rows[0].1;
        let dec = dec_seq(c0 as int);
        lemma_dec_seq(c0 as int);
        lemma_digits_clean(dec);
        let line = k0 + seq!['\t'] + dec;
        let rest = render_hist(rows.drop_first());
        assert(render_hist(rows) =~= line + seq!['\n'] + rest);
        assert(!has_char(line, '\n')) by {
            assert(forall|i: int| 0 <= i < k0.len() ==> #[trigger] line[i] == k0[i]);
            assert(line[k0.len() as int] == '\t');
            assert(forall|i: int|
                0 <= i < dec.len() ==> #[trigger] line[k0.len() + 1 + i] == dec[i]);
            if has_char(line, '\n') {
                let i = choose|i: int| 0 <= i < line.len() && line[i] == '\n';
                if i < k0.len() {
                    assert(k0[i] == '\n');
                } else if i > k0.len() {
                    assert(dec[i - k0.len() - 1] == '\n');
                }
            }
        }
        lemma_split_concat_sep(line, rest, '\n');
        let lines = split_on(render_hist(rows), '\n');
        assert(lines == seq![line] + split_on(rest, '\n'));
        assert(lines[0] == line);
        assert(lines.drop_first() =~= split_on(rest, '\n'));
        // the line splits into exactly its identity and its count field
        lemma_split_concat_sep(k0, dec, '\t');
        lemma_split_no_sep(dec, '\t');
        let fields = split_on(line, '\t');
        assert(fields == seq![k0] + seq![dec]);
        assert(fields.len() == 2);
        assert(fields[0] == k0);
        assert(fields[1] == dec);
        assert(parse_count(dec) == Some(c0));
        assert(fold_line(acc, line) == upsert(acc, k0, c0));
        assert(!contains_key(acc, k0));
        lemma_upsert_missing(acc, k0, c0);
        let acc2 = acc.push((k0, c0));
        assert(acc2 == acc.push(rows[0]));
        // the remaining rows still carry clean, fresh identities
        assert(forall|i: int|
            0 <= i < rows.drop_first().len() ==> #[trigger] rows.drop_first()[i] == rows[i + 1]);
        assert(unique_keys(rows.drop_first()));
        assert forall|i: int|
            0 <= i < rows.drop_first().len() implies !contains_key(
            acc2,
            (#[trigger] rows.drop_first()[i]).0,
        ) by {
            let k = rows.drop_first()[i].0;
            assert(k == rows[i + 1].0);
            assert(k != k0);
            if contains_key(acc2, k) {
                let t = choose|t: int| 0 <= t < acc2.len() && (#[trigger] acc2[t]).0 == k;
                if t < acc.len() {
                    assert(acc[t].0 == k);
                    assert(contains_key(acc, k));
                }
            }
        }
        lemma_render_parse(acc2, rows.drop_first());
        assert(fold_lines(acc, lines) == fold_lines(fold_line(acc, lines[0]), lines.drop_first()));
        assert(acc2 + rows.drop_first() =~= acc + rows);
    }
}

/// A usage-frequency store. Without a backing store text it is a permanent
/// no-op: every count reads as zero and recording changes nothing.
pub struct History {
    entries: Vec<(String, u32)>,
    enabled: bool,
}

/// A count after one more recorded use; the counter saturates at its cap.
pub open spec fn bump(c: u32) -> u32 {
    if c < u32::MAX {
        (c + 1) as u32
    } else {
        c
    }
}

impl History {
    /// The identity/count rows, as plain values.
    pub closed spec fn rows(self) -> Seq<(Seq<char>, u32)> {
        rows_view(self.entries@)
    }

    /// Whether a backing store was configured.
    pub closed spec fn is_enabled(self) -> bool {
        self.enabled
    }

    /// Identities are unique.
    pub open spec fn wf(self) -> bool {
        unique_keys(self.rows())
    }

    /// The count rankings see for `key`: zero whenever no store is configured.
    pub open spec fn count_of(self, key: Seq<char>) -> u32 {
        if self.is_enabled() {
            lookup(self.rows(), key)
        } else {
            0
        }
    }

    /// Builds the store from the backing text, if one is configured. A store
    /// that cannot be read is handed over as `None` and yields the permanent
    /// no-op store.
    pub fn new(stored: Option<String>) -> (h: History)
        ensures
            h.wf(),
            match stored {
                None => !h.is_enabled() && h.rows() == Seq::<(Seq<char>, u32)>::empty(),
                Some(text) => h.is_enabled() && h.rows() == parse_hist(text@),
            },
    {
        match stored {
            None => {
                let h = History { entries: Vec::new(), enabled: false };
                proof {
                    assert(h.rows() =~= Seq::<(Seq<char>, u32)>::empty());
                }
                h
            },
            Some(text) => {
                proof {
                    lemma_parse_hist_unique(text@);
                }
                let entries = parse_history(text.as_str());
                History { entries, enabled: true }
            },
        }
    }

    /// The stored count for `command`, zero for unknown identities and for
    /// the no-op store.
    pub fn get_count(&self, command: &str) -> (c: u32)
        ensures
            c == self.count_of(command@),
    {
        if !self.enabled {
            return 0;
        }
        lookup_row(&self.entries, command)
    }

    /// Records one use of `command` and hands back the full store text to be
    /// persisted, or `None` when no store is configured.
    pub fn record_usage(&mut self, command: &str) -> (saved: Option<String>)
        ensures
            final(self).is_enabled() == old(self).is_enabled(),
            old(self).wf() ==> final(self).wf(),
            !old(self).is_enabled() ==> final(self).rows() == old(self).rows() && saved is None,
            old(self).is_enabled() ==> final(self).rows() == upsert(
                old(self).rows(),
                command@,
                bump(lookup(old(self).rows(), command@)),
            ),
            old(self).is_enabled() ==> saved is Some && saved->0@ == render_hist(
                final(self).rows(),
            ),
    {
        if !self.enabled {
            return None;
        }
        let cur = lookup_row(&self.entries, command);
        let next = if cur < u32::MAX {
            cur + 1
        } else {
            cur
        };
        let key = chars_vec(command);
        upsert_row(&mut self.entries, &key, next);
        proof {
            if old(self).wf() {
                lemma_upsert_lookup(old(self).rows(), command@, next, command@);
            }
        }
        Some(render_history(&self.entries))
    }
}

/// The stored count for `command` among these rows, zero when absent.
fn lookup_row(entries: &Vec<(String, u32)>, command: &str) -> (c: u32)
    ensures
        c == lookup(rows_view(entries@), command@),
{
    let ghost rows = rows_view(entries@);
    let n = entries.len();
    let mut t: usize = 0;
    proof {
        assert(rows.skip(0) =~= rows);
    }
    while t < n
        invariant
            t <= n,
            n == entries@.len(),
            rows == rows_view(entries@),
            rows.len() == n,
            lookup(rows, command@) == lookup(rows.skip(t as int), command@),
        decreases n - t,
    {
        proof {
            assert(rows.skip(t as int).len() > 0);
            assert(rows.skip(t as int)[0] == rows[t as int]);
            assert(rows.skip(t as int).drop_first() =~= rows.skip(t as int + 1));
        }
        if str_eq(entries[t].0.as_str(), command) {
            return entries[t].1;
        }
        t = t + 1;
    }
    proof {
        assert(rows.skip(n as int).len() == 0);
    }
    0
}

/// Replaces the first row holding `key`, or appends a new one.
fn upsert_row(rows: &mut Vec<(String, u32)>, key: &Vec<char>, v: u32)
    ensures
        rows_view(final(rows)@) == upsert(rows_view(old(rows)@), key@, v),
{
    let ghost rv = rows_view(old(rows)@);
    let n = rows.len();
    let mut t: usize = 0;
    while t < n
        invariant
            t <= n,
            n == rows@.len(),
            rows@ == old(rows)@,
            rv == rows_view(rows@),
            rv.len() == n,
            forall|u: int| 0 <= u < t ==> (#[trigger] rv[u]).0 != key@,
        decreases n - t,
    {
        if string_eq_chars(&rows[t].0, key) {
            proof {
                assert(rv[t as int].0 == key@);
                lemma_upsert_at(rv, key@, v, t as int);
            }
            let pair = rows.remove(t);
            rows.insert(t, (pair.0, v));
            proof {
                assert(rows@ =~= old(rows)@.update(t as int, (pair.0, v)));
                assert(pair.0@ == key@);
                assert(rows_view(rows@) =~= rv.update(t as int, (key@, v)));
            }
            return ;
        }
        t = t + 1;
    }
    proof {
        assert(!contains_key(rv, key@));
        lemma_upsert_missing(rv, key@, v);
    }
    let ks = string_from_chars(key);
    rows.push((ks, v));
    proof {
        assert(rows_view(rows@) =~= rv.push((key@, v)));
    }
}

/// Loads the rows of a stored history text: one `identity<TAB>count` record
/// per line, records that do not parse being skipped.
pub fn parse_history(contents: &str) -> (rows: Vec<(String, u32)>)
    ensures
        rows_view(rows@) == parse_hist(contents@),
{
    let cs = chars_vec(contents);
    let pieces = split_chars(&cs, '\n');
    let ghost lines = split_on(contents@, '\n');
    let mut rows: Vec<(String, u32)> = Vec::new();
    let np = pieces.len();
    let mut k: usize = 0;
    proof {
        assert(lines.skip(0) =~= lines);
        assert(rows_view(rows@) =~= Seq::<(Seq<char>, u32)>::empty());
    }
    while k < np
        invariant
            k <= np,
            np == pieces@.len(),
            views_of_vecs(pieces@) == lines,
            lines == split_on(contents@, '\n'),
            parse_hist(contents@) == fold_lines(rows_view(rows@), lines.skip(k as int)),
        decreases np - k,
    {
        let ghost rv = rows_view(rows@);
        proof {
            assert(lines.skip(k as int).len() > 0);
            assert(lines.skip(k as int)[0] == lines[k as int]);
            assert(lines.skip(k as int).drop_first() =~= lines.skip(k as int + 1));
            assert(lines[k as int] == pieces@[k as int]@);
        }
        let fields = split_chars(&pieces[k], '\t');
        proof {
            assert(views_of_vecs(fields@) == split_on(lines[k as int], '\t'));
            assert(views_of_vecs(fields@).len() == fields@.len());
        }
        if fields.len() == 2 {
            proof {
                assert(fields@[1]@ == split_on(lines[k as int], '\t')[1]);
                assert(fields@[0]@ == split_on(lines[k as int], '\t')[0]);
            }
            match parse_u32_chars(&fields[1]) {
                Some(cnt) => {
                    upsert_row(&mut rows, &fields[0], cnt);
                    proof {
                        assert(rows_view(rows@) == fold_line(rv, lines[k as int]));
                    }
                },
                None => {
                    proof {
                        assert(rows_view(rows@) == fold_line(rv, lines[k as int]));
                    }
                },
            }
        } else {
            proof {
                assert(rows_view(rows@) == fold_line(rv, lines[k as int]));
            }
        }
        k = k + 1;
    }
    proof {
        assert(lines.skip(np as int).len() == 0);
    }
    rows
}

/// Renders the rows to the stored text: one `identity<TAB>count` line each.
pub fn render_history(entries: &Vec<(String, u32)>) -> (s: String)
    ensures
        s@ == render_hist(rows_view(entries@)),
{
    let ghost rows = rows_view(entries@);
    let mut out: Vec<char> = Vec::new();
    let n = entries.len();
    let mut k: usize = 0;
    proof {
        assert(rows.skip(0) =~= rows);
        assert(out@ + render_hist(rows) =~= render_hist(rows));
    }
    while k < n
        invariant
            k <= n,
            n == entries@.len(),
            rows == rows_view(entries@),
            rows.len() == n,
            render_hist(rows) == out@ + render_hist(rows.skip(k as int)),
        decreases n - k,
    {
        let ghost pre = out@;
        let ghost tail = rows.skip(k as int);
        proof {
            assert(tail.len() > 0);
            assert(tail[0] == rows[k as int]);
            assert(tail.drop_first() =~= rows.skip(k as int + 1));
        }
        extend_chars(&mut out, entries[k].0.as_str());
        out.push('\t');
        push_dec(&mut out, entries[k].1);
        out.push('\n');
        proof {
            assert(out@ =~= pre + (tail[0].0 + seq!['\t'] + dec_seq(tail[0].1 as int)
                + seq!['\n']));
            assert(pre + render_hist(tail) =~= out@ + render_hist(rows.skip(k as int + 1)));
        }
        k = k + 1;
    }
    proof {
        assert(rows.skip(n as int).len() == 0);
        assert(out@ + render_hist(rows.skip(n as int)) =~= out@);
    }
    string_from_chars(&out)
}

} // verus!
