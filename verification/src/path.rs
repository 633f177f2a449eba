//! Paths of documents and folders inside a project.
//!
//! A path is a `/`-separated list of components that starts with `/`.
//! A `/` inside a component is written `\/`, a backslash is written `\\`.

use vstd::prelude::*;
use std::borrow::Cow;
use crate::text::{chars_of, decimal_chars, decimal_spec, is_digit, lemma_decimal_digits, lemma_decimal_value, parse_usize, parse_usize_spec, push_range, string_of};

verus! {

// ---------------------------------------------------------------------------
// Mathematical model of the escaping rules
// ---------------------------------------------------------------------------

/// Number of backslashes that stand directly before position `i` of `s`.
pub open spec fn backslashes_before(s: Seq<char>, i: int) -> nat
    decreases i,
{
    if 0 < i <= s.len() && s[i - 1] == '\\' {
        1 + backslashes_before(s, i - 1)
    } else {
        0
    }
}

/// The character at position `i` is preceded by an odd number of backslashes.
pub open spec fn is_escaped(s: Seq<char>, i: int) -> bool {
    backslashes_before(s, i) % 2 == 1
}

/// Position `i` holds a `/` that separates two components.
pub open spec fn is_separator(s: Seq<char>, i: int) -> bool {
    &&& 0 <= i < s.len()
    &&& s[i] == '/'
    &&& !is_escaped(s, i)
}

/// `s` is a well formed path: it starts with `/`, a backslash only escapes
/// `/` or `\`, no two separators follow each other, and it neither ends with
/// a separator nor with an unfinished escape.
pub open spec fn valid_path(s: Seq<char>) -> bool {
    &&& s.len() > 0
    &&& s[0] == '/'
    &&& forall|i: int| 0 <= i < s.len() && s[i] != '\\' && s[i] != '/' ==> !is_escaped(s, i)
    &&& forall|i: int| 0 <= i < s.len() - 1 && #[trigger] is_separator(s, i) ==> s[i + 1] != '/'
    &&& !is_escaped(s, s.len() as int)
    &&& !is_separator(s, s.len() - 1)
}

/// Index of the last separator strictly before position `k`, or `-1`.
pub open spec fn last_separator(s: Seq<char>, k: int) -> int
    decreases k,
{
    if k <= 0 {
        -1
    } else if is_separator(s, k - 1) {
        k - 1
    } else {
        last_separator(s, k - 1)
    }
}

/// Indices of all separators strictly before position `k`, in increasing order.
pub open spec fn separators(s: Seq<char>, k: int) -> Seq<int>
    decreases k,
{
    if k <= 0 {
        seq![]
    } else if is_separator(s, k - 1) {
        separators(s, k - 1).push(k - 1)
    } else {
        separators(s, k - 1)
    }
}

/// The last component of `s`, still escaped.
pub open spec fn name_escaped(s: Seq<char>) -> Seq<char> {
    s.subrange(last_separator(s, s.len() as int) + 1, s.len() as int)
}

/// The components of `s` before its last one (the enclosing folders),
/// starting from the root, still escaped.
pub open spec fn folders_escaped(s: Seq<char>) -> Seq<Seq<char>> {
    let seps = separators(s, s.len() as int);
    if seps.len() == 0 {
        seq![]
    } else {
        Seq::new((seps.len() - 1) as nat, |j: int| s.subrange(seps[j] + 1, seps[j + 1]))
    }
}

/// The components of `s` before its last one, from the root, with escapes
/// removed.
pub open spec fn folders_unescaped(s: Seq<char>) -> Seq<Seq<char>> {
    folders_escaped(s).map_values(|c: Seq<char>| unescape_seq(c))
}

/// `s` with every escaping backslash removed; a trailing lone backslash is dropped.
pub open spec fn unescape_seq(s: Seq<char>) -> Seq<char>
    decreases s.len(),
{
    if s.len() == 0 {
        seq![]
    } else if s[0] == '\\' {
        if s.len() >= 2 {
            seq![s[1]] + unescape_seq(s.skip(2))
        } else {
            seq![]
        }
    } else {
        seq![s[0]] + unescape_seq(s.skip(1))
    }
}

/// `s` with a backslash put before every `\` and `/`.
pub open spec fn escape_seq(s: Seq<char>) -> Seq<char>
    decreases s.len(),
{
    if s.len() == 0 {
        seq![]
    } else if s[0] == '\\' || s[0] == '/' {
        seq!['\\', s[0]] + escape_seq(s.skip(1))
    } else {
        seq![s[0]] + escape_seq(s.skip(1))
    }
}

/// Start of the last ` (` that ends before position `k`, or `-1`.
pub open spec fn last_open_paren(s: Seq<char>, k: int) -> int
    decreases k,
{
    if k < 2 {
        -1
    } else if s[k - 2] == ' ' && s[k - 1] == '(' {
        k - 2
    } else {
        last_open_paren(s, k - 1)
    }
}

/// If `s` ends with ` (n)` where `n` reads as a `usize`, the start of that
/// suffix and `n`. The suffix starts at the last ` (` of `s`.
pub open spec fn numbered_suffix(s: Seq<char>) -> Option<(int, nat)> {
    let j = last_open_paren(s, s.len() as int);
    if j < 0 {
        None
    } else {
        let end = s.skip(j + 2);
        if end.len() > 0 && end.last() == ')' {
            match parse_usize_spec(end.drop_last()) {
                Some(n) => Some((j, n)),
                None => None,
            }
        } else {
            None
        }
    }
}

/// `s` with its number suffix ` (n)` replaced by ` (n+1)`, or with ` (2)`
/// appended when it has none.
pub open spec fn increment_name_seq(s: Seq<char>) -> Seq<char> {
    match numbered_suffix(s) {
        Some((j, n)) => s.take(j) + seq![' ', '('] + decimal_spec(n + 1) + seq![')'],
        None => s + seq![' ', '(', '2', ')'],
    }
}

/// The conditions of [`valid_path`] that do not look at the end of the text.
pub open spec fn valid_prefix(p: Seq<char>) -> bool {
    &&& p.len() > 0
    &&& p[0] == '/'
    &&& forall|i: int| 0 <= i < p.len() && p[i] != '\\' && p[i] != '/' ==> !is_escaped(p, i)
    &&& forall|i: int| 0 <= i < p.len() - 1 && #[trigger] is_separator(p, i) ==> p[i + 1] != '/'
    &&& !is_escaped(p, p.len() as int)
}

/// No character of `t` is a backslash or a slash.
pub open spec fn plain_chars(t: Seq<char>) -> bool {
    forall|k: int| 0 <= k < t.len() ==> t[k] != '\\' && t[k] != '/'
}

// ---------------------------------------------------------------------------
// Lemmas
// ---------------------------------------------------------------------------

/// The escape state at `i` only depends on the characters before `i`.
pub proof fn lemma_backslashes_prefix(a: Seq<char>, b: Seq<char>, i: int)
    requires
        0 <= i <= a.len(),
        i <= b.len(),
        a.take(i) == b.take(i),
    ensures
        backslashes_before(a, i) == backslashes_before(b, i),
    decreases i,
{
    if i > 0 {
        assert(a[i - 1] == a.take(i)[i - 1]);
        assert(b[i - 1] == b.take(i)[i - 1]);
        assert(a.take(i - 1) == a.take(i).take(i - 1));
        assert(b.take(i - 1) == b.take(i).take(i - 1));
        lemma_backslashes_prefix(a, b, i - 1);
    }
}

/// `separators` lists, in increasing order, exactly the separators before `k`.
pub proof fn lemma_separators(s: Seq<char>, k: int)
    requires
        0 <= k <= s.len(),
    ensures
        forall|t: int| 0 <= t < separators(s, k).len() ==> is_separator(s, #[trigger] separators(s, k)[t])
            && separators(s, k)[t] < k,
        forall|t: int, u: int| 0 <= t < u < separators(s, k).len() ==> separators(s, k)[t] < separators(
            s,
            k,
        )[u],
        forall|x: int| 0 <= x < k && is_separator(s, x) ==> #[trigger] separators(s, k).contains(x),
    decreases k,
{
    if k > 0 {
        lemma_separators(s, k - 1);
        let prev = separators(s, k - 1);
        if is_separator(s, k - 1) {
            assert(separators(s, k) == prev.push(k - 1));
            assert(separators(s, k).contains(k - 1)) by {
                assert(separators(s, k)[prev.len() as int] == k - 1);
            }
            assert forall|x: int| 0 <= x < k && is_separator(s, x) implies #[trigger] separators(s, k).contains(x) by {
                if x < k - 1 {
                    assert(prev.contains(x));
                    let t = choose|t: int| 0 <= t < prev.len() && prev[t] == x;
                    assert(separators(s, k)[t] == x);
                }
            }
        } else {
            assert forall|x: int| 0 <= x < k && is_separator(s, x) implies #[trigger] separators(s, k).contains(x) by {
                assert(x < k - 1);
                assert(prev.contains(x));
            }
        }
    }
}

/// Escaping and then unescaping gives back the same text.
pub proof fn lemma_unescape_escape(s: Seq<char>)
    ensures
        unescape_seq(escape_seq(s)) == s,
    decreases s.len(),
{
    if s.len() > 0 {
        lemma_unescape_escape(s.skip(1));
        let e = escape_seq(s);
        let rest = escape_seq(s.skip(1));
        if s[0] == '\\' || s[0] == '/' {
            assert(e == seq!['\\', s[0]] + rest);
            assert(e.skip(2) == rest);
            assert(seq![s[0]] + s.skip(1) == s);
        } else {
            assert(e == seq![s[0]] + rest);
            assert(e.skip(1) == rest);
            assert(seq![s[0]] + s.skip(1) == s);
        }
    }
}


/// The components `cs` joined into the text of a path: each one preceded
/// by a `/`.
pub open spec fn joined(cs: Seq<Seq<char>>) -> Seq<char>
    decreases cs.len(),
{
    if cs.len() == 0 {
        seq![]
    } else {
        joined(cs.drop_last()) + seq!['/'] + cs.last()
    }
}

/// `last_separator` is the last of `separators`.
proof fn lemma_last_separator(s: Seq<char>, k: int)
    ensures
        last_separator(s, k) == (if separators(s, k).len() == 0 {
            -1
        } else {
            separators(s, k).last()
        }),
    decreases k,
{
    if k > 0 {
        lemma_last_separator(s, k - 1);
    }
}

/// The separators of a valid path start at its first character.
proof fn lemma_first_separator(s: Seq<char>)
    requires
        valid_path(s),
    ensures
        separators(s, s.len() as int).len() > 0,
        separators(s, s.len() as int)[0] == 0,
{
    lemma_separators(s, s.len() as int);
    let seps = separators(s, s.len() as int);
    assert(is_separator(s, 0));
    assert(seps.contains(0));
    let q = choose|q: int| 0 <= q < seps.len() && seps[q] == 0;
    if q > 0 {
        assert(seps[0] < seps[q]);
        assert(is_separator(s, seps[0]));
    }
}

/// The first `q` folders of a valid path, joined, are its text up to its
/// separator `q`.
proof fn lemma_joined_folders(s: Seq<char>, q: int)
    requires
        valid_path(s),
        0 <= q < separators(s, s.len() as int).len(),
    ensures
        joined(folders_escaped(s).take(q)) == s.take(separators(s, s.len() as int)[q]),
    decreases q,
{
    let seps = separators(s, s.len() as int);
    let f = folders_escaped(s);
    lemma_first_separator(s);
    lemma_separators(s, s.len() as int);
    if q == 0 {
        assert(f.take(0) =~= Seq::<Seq<char>>::empty());
        assert(s.take(0) =~= Seq::<char>::empty());
    } else {
        lemma_joined_folders(s, q - 1);
        assert(f.take(q).drop_last() =~= f.take(q - 1));
        assert(f.take(q).last() == s.subrange(seps[q - 1] + 1, seps[q]));
        assert(is_separator(s, seps[q - 1]));
        assert(seps[q - 1] < seps[q]);
        assert(s.take(seps[q - 1]) + seq!['/'] + s.subrange(seps[q - 1] + 1, seps[q]) =~= s.take(seps[q]));
    }
}

/// A path is its folders and its name joined again: for a valid path, `/`
/// followed by its folders and its name, as [`Path::ancestors_unescaped`]
/// and [`Path::get_name_escaped`] give them, separated by `/`, is the path;
/// and no folder is empty.
pub proof fn lemma_rejoin(s: Seq<char>)
    requires
        valid_path(s),
    ensures
        joined(folders_escaped(s).push(name_escaped(s))) == s,
        forall|j: int| 0 <= j < folders_escaped(s).len() ==> (#[trigger] folders_escaped(s)[j]).len() > 0,
{
    let seps = separators(s, s.len() as int);
    let f = folders_escaped(s);
    lemma_first_separator(s);
    lemma_separators(s, s.len() as int);
    lemma_last_separator(s, s.len() as int);
    let m = seps.len() - 1;
    lemma_joined_folders(s, m);
    assert(f.take(m) =~= f);
    assert(f.push(name_escaped(s)).drop_last() =~= f);
    assert(is_separator(s, seps[m]));
    assert(s.take(seps[m]) + seq!['/'] + s.subrange(seps[m] + 1, s.len() as int) =~= s);
    assert forall|j: int| 0 <= j < f.len() implies (#[trigger] f[j]).len() > 0 by {
        assert(is_separator(s, seps[j]) && is_separator(s, seps[j + 1]));
        assert(seps[j] < seps[j + 1]);
        if seps[j] + 1 == seps[j + 1] {
            assert(s[seps[j] + 1] != '/');
        }
    }
}

/// Appending plain characters keeps the separators of a text.
proof fn lemma_separators_plain_tail(p: Seq<char>, t: Seq<char>, k: int)
    requires
        plain_chars(t),
        0 <= k <= p.len() + t.len(),
    ensures
        separators(p + t, k) == separators(
            p,
            if k <= p.len() {
                k
            } else {
                p.len() as int
            },
        ),
    decreases k,
{
    let q = p + t;
    if k > 0 {
        lemma_separators_plain_tail(p, t, k - 1);
        if k <= p.len() {
            assert(q.take(k - 1) =~= p.take(k - 1));
            lemma_backslashes_prefix(q, p, k - 1);
            assert(q[k - 1] == p[k - 1]);
            assert(is_separator(q, k - 1) == is_separator(p, k - 1));
        } else {
            assert(q[k - 1] == t[k - 1 - p.len()]);
            assert(!is_separator(q, k - 1));
        }
    }
}

/// Appending plain characters keeps the folders of a text.
proof fn lemma_folders_plain_tail(p: Seq<char>, t: Seq<char>)
    requires
        plain_chars(t),
    ensures
        folders_escaped(p + t) == folders_escaped(p),
{
    let q = p + t;
    lemma_separators_plain_tail(p, t, q.len() as int);
    let seps = separators(p, p.len() as int);
    lemma_separators(p, p.len() as int);
    if seps.len() > 0 {
        assert forall|j: int| 0 <= j < seps.len() - 1 implies #[trigger] folders_escaped(q)[j] == folders_escaped(
            p,
        )[j] by {
            assert(seps[j] < seps[j + 1] && seps[j + 1] < p.len());
            assert(q.subrange(seps[j] + 1, seps[j + 1]) =~= p.subrange(seps[j] + 1, seps[j + 1]));
        }
    }
    assert(folders_escaped(q) =~= folders_escaped(p));
}

/// `last_open_paren` finds a ` (` before `k`.
proof fn lemma_last_open_paren(s: Seq<char>, k: int)
    requires
        k <= s.len(),
    ensures
        last_open_paren(s, k) >= 0 ==> last_open_paren(s, k) + 2 <= k && s[last_open_paren(s, k)] == ' '
            && s[last_open_paren(s, k) + 1] == '(',
    decreases k,
{
    if k >= 2 {
        lemma_last_open_paren(s, k - 1);
    }
}

/// The number suffix of a path and the one that replaces it hold plain
/// characters only.
proof fn lemma_suffixes_plain(s: Seq<char>, j: int, n: nat)
    requires
        numbered_suffix(s) == Some((j, n)),
    ensures
        0 <= j && j + 2 <= s.len(),
        plain_chars(s.skip(j)),
        plain_chars(seq![' ', '('] + decimal_spec(n + 1) + seq![')']),
{
    lemma_last_open_paren(s, s.len() as int);
    let digits = decimal_spec(n + 1);
    lemma_decimal_digits(n + 1);
    let new_t = seq![' ', '('] + digits + seq![')'];
    let old_t = s.skip(j);
    let end = s.skip(j + 2);
    let body = end.drop_last();
    assert(parse_usize_spec(body) == Some(n));
    assert forall|k: int| 0 <= k < body.len() implies body[k] != '\\' && body[k] != '/' by {
        if body[0] == '+' {
            if k > 0 {
                assert(body.skip(1)[k - 1] == body[k]);
                assert(is_digit(body.skip(1)[k - 1]));
            }
        } else {
            assert(is_digit(body[k]));
        }
    }
    assert forall|k: int| 0 <= k < new_t.len() implies new_t[k] != '\\' && new_t[k] != '/' by {
        if 2 <= k < 2 + digits.len() {
            assert(new_t[k] == digits[k - 2]);
            assert(is_digit(digits[k - 2]));
        }
    }
    assert forall|k: int| 0 <= k < old_t.len() implies old_t[k] != '\\' && old_t[k] != '/' by {
        if 2 <= k < old_t.len() - 1 {
            assert(old_t[k] == body[k - 2]);
        } else if k == old_t.len() - 1 {
            assert(old_t[k] == end.last());
        }
    }
}

/// The number suffix that replaces `n` is not the one there.
proof fn lemma_suffix_changes(s: Seq<char>, j: int, n: nat)
    requires
        numbered_suffix(s) == Some((j, n)),
        0 <= j && j + 2 <= s.len(),
    ensures
        s.skip(j) != seq![' ', '('] + decimal_spec(n + 1) + seq![')'],
{
    let digits = decimal_spec(n + 1);
    lemma_decimal_digits(n + 1);
    let new_t = seq![' ', '('] + digits + seq![')'];
    let old_t = s.skip(j);
    let end = s.skip(j + 2);
    let body = end.drop_last();
    if old_t == new_t {
        assert(new_t.len() == digits.len() + 3);
        assert(body.len() == digits.len());
        assert(body =~= digits) by {
            assert forall|k: int| 0 <= k < digits.len() implies body[k] == digits[k] by {
                assert(body[k] == end[k]);
                assert(end[k] == old_t[k + 2]);
                assert(new_t[k + 2] == digits[k]);
            }
        }
        lemma_decimal_value(n + 1);
        assert(is_digit(digits[0]));
        assert(parse_usize_spec(body) != Some(n));
    }
}

/// Incrementing the number suffix of a path keeps its folders and changes
/// the path: [`Path::increment_name_suffix`] gives a path with the same
/// enclosing folders and another name.
pub proof fn lemma_increment_keeps_folders(s: Seq<char>)
    requires
        valid_path(s),
    ensures
        folders_escaped(increment_name_seq(s)) == folders_escaped(s),
        increment_name_seq(s) != s,
{
    match numbered_suffix(s) {
        None => {
            let t = seq![' ', '(', '2', ')'];
            assert(plain_chars(t));
            lemma_folders_plain_tail(s, t);
            assert(increment_name_seq(s) == s + t);
            assert(increment_name_seq(s).len() == s.len() + 4);
        },
        Some((j, n)) => {
            lemma_suffixes_plain(s, j, n);
            lemma_suffix_changes(s, j, n);
            let new_t = seq![' ', '('] + decimal_spec(n + 1) + seq![')'];
            let old_t = s.skip(j);
            lemma_folders_plain_tail(s.take(j), new_t);
            lemma_folders_plain_tail(s.take(j), old_t);
            assert(s.take(j) + old_t =~= s);
            assert(increment_name_seq(s) =~= s.take(j) + new_t);
            if increment_name_seq(s) == s {
                assert(new_t =~= old_t) by {
                    assert forall|k: int| 0 <= k < new_t.len() implies new_t[k] == old_t[k] by {
                        assert((s.take(j) + new_t)[j + k] == (s.take(j) + old_t)[j + k]);
                    }
                }
            }
        },
    }
}

/// `c` is a component written with escapes: a backslash stands only
/// before `\` or `/`, and every `/` has one before it.
pub open spec fn escaped_component(c: Seq<char>) -> bool
    decreases c.len(),
{
    if c.len() == 0 {
        true
    } else if c[0] == '\\' {
        c.len() >= 2 && (c[1] == '\\' || c[1] == '/') && escaped_component(c.skip(2))
    } else {
        c[0] != '/' && escaped_component(c.skip(1))
    }
}

/// From position `p` to `m` of `q`, characters other than `\` and `/`
/// are not escaped, every `/` is, and `m` is not.
pub open spec fn escapes_well_between(q: Seq<char>, p: int, m: int) -> bool {
    &&& forall|i: int| p <= i < m && q[i] != '\\' && q[i] != '/' ==> !is_escaped(q, i)
    &&& forall|i: int| p <= i < m && q[i] == '/' ==> is_escaped(q, i)
    &&& !is_escaped(q, m)
}

/// Between two unescaped positions, a text is an escaped component exactly
/// when its escapes are well placed.
proof fn lemma_escaped_component_scan(q: Seq<char>, p: int, m: int)
    requires
        0 <= p <= m <= q.len(),
        !is_escaped(q, p),
    ensures
        escaped_component(q.subrange(p, m)) <==> escapes_well_between(q, p, m),
    decreases m - p,
{
    let c = q.subrange(p, m);
    if p < m {
        assert(c[0] == q[p]);
        if q[p] == '\\' {
            assert(is_escaped(q, p + 1));
            if p + 1 < m {
                assert(c[1] == q[p + 1]);
                if q[p + 1] == '\\' || q[p + 1] == '/' {
                    assert(!is_escaped(q, p + 2));
                    lemma_escaped_component_scan(q, p + 2, m);
                    assert(c.skip(2) =~= q.subrange(p + 2, m));
                    if escapes_well_between(q, p + 2, m) {
                        assert forall|i: int| p <= i < m && q[i] != '\\' && q[i] != '/' implies !is_escaped(
                            q,
                            i,
                        ) by {}
                        assert forall|i: int| p <= i < m && q[i] == '/' implies is_escaped(q, i) by {}
                    }
                }
            }
        } else {
            assert(!is_escaped(q, p + 1));
            lemma_escaped_component_scan(q, p + 1, m);
            assert(c.skip(1) =~= q.subrange(p + 1, m));
            if q[p] != '/' && escapes_well_between(q, p + 1, m) {
                assert forall|i: int| p <= i < m && q[i] != '\\' && q[i] != '/' implies !is_escaped(q, i) by {}
                assert forall|i: int| p <= i < m && q[i] == '/' implies is_escaped(q, i) by {}
            }
        }
    }
}

/// Escaping a text gives an escaped component.
pub proof fn lemma_escape_is_component(t: Seq<char>)
    ensures
        escaped_component(escape_seq(t)),
    decreases t.len(),
{
    if t.len() > 0 {
        lemma_escape_is_component(t.skip(1));
        let e = escape_seq(t);
        if t[0] == '\\' || t[0] == '/' {
            assert(e.skip(2) =~= escape_seq(t.skip(1)));
        } else {
            assert(e.skip(1) =~= escape_seq(t.skip(1)));
        }
    }
}

/// Escaping an unescaped component gives it back.
pub proof fn lemma_escape_unescape(c: Seq<char>)
    requires
        escaped_component(c),
    ensures
        escape_seq(unescape_seq(c)) == c,
    decreases c.len(),
{
    if c.len() > 0 {
        if c[0] == '\\' {
            lemma_escape_unescape(c.skip(2));
            let u = unescape_seq(c);
            assert(u == seq![c[1]] + unescape_seq(c.skip(2)));
            assert(u.skip(1) =~= unescape_seq(c.skip(2)));
            assert(u[0] == c[1]);
            assert(seq!['\\', c[1]] + c.skip(2) =~= c);
        } else {
            lemma_escape_unescape(c.skip(1));
            let u = unescape_seq(c);
            assert(u.skip(1) =~= unescape_seq(c.skip(1)));
            assert(u[0] == c[0]);
            assert(seq![c[0]] + c.skip(1) =~= c);
        }
    }
}

/// The name and the folders of a valid path are escaped components, so
/// escaping what unescaping them gives, gives them back.
pub proof fn lemma_path_components_escaped(s: Seq<char>)
    requires
        valid_path(s),
    ensures
        escaped_component(name_escaped(s)),
        escape_seq(unescape_seq(name_escaped(s))) == name_escaped(s),
        forall|j: int|
            0 <= j < folders_escaped(s).len() ==> escaped_component(#[trigger] folders_escaped(s)[j]) && escape_seq(
                unescape_seq(folders_escaped(s)[j]),
            ) == folders_escaped(s)[j],
{
    let len = s.len() as int;
    let seps = separators(s, len);
    lemma_first_separator(s);
    lemma_separators(s, len);
    lemma_last_separator(s, len);
    let m = seps.len() - 1;
    let ls = seps[m];
    assert(is_separator(s, ls));
    assert(!is_escaped(s, ls + 1));
    assert forall|i: int| ls + 1 <= i < len && s[i] == '/' implies is_escaped(s, i) by {
        if !is_escaped(s, i) {
            assert(is_separator(s, i));
            assert(seps.contains(i));
        }
    }
    lemma_escaped_component_scan(s, ls + 1, len);
    lemma_escape_unescape(name_escaped(s));
    assert forall|j: int| 0 <= j < folders_escaped(s).len() implies escaped_component(
        #[trigger] folders_escaped(s)[j],
    ) && escape_seq(unescape_seq(folders_escaped(s)[j])) == folders_escaped(s)[j] by {
        let a = seps[j];
        let b = seps[j + 1];
        assert(is_separator(s, a) && is_separator(s, b) && a < b);
        assert(!is_escaped(s, a + 1));
        assert forall|i: int| a + 1 <= i < b && s[i] == '/' implies is_escaped(s, i) by {
            if !is_escaped(s, i) {
                assert(is_separator(s, i));
                assert(seps.contains(i));
                let q = choose|q: int| 0 <= q < seps.len() && seps[q] == i;
                if q <= j {
                    assert(seps[q] <= seps[j]);
                } else {
                    assert(seps[j + 1] <= seps[q]);
                }
            }
        }
        lemma_escaped_component_scan(s, a + 1, b);
        lemma_escape_unescape(folders_escaped(s)[j]);
    }
}

/// An escaped name is a path of one component: for a non-empty `t`, `/`
/// followed by `t` escaped is a valid path with no folder, whose name is
/// `t` escaped.
pub proof fn lemma_escaped_name_path(t: Seq<char>)
    requires
        t.len() > 0,
    ensures
        valid_path(seq!['/'] + escape_seq(t)),
        folders_escaped(seq!['/'] + escape_seq(t)).len() == 0,
        name_escaped(seq!['/'] + escape_seq(t)) == escape_seq(t),
{
    let e = escape_seq(t);
    let q = seq!['/'] + e;
    let len = q.len() as int;
    lemma_escape_is_component(t);
    assert(!is_escaped(q, 1));
    assert(q.subrange(1, len) =~= e);
    lemma_escaped_component_scan(q, 1, len);
    assert(e.len() > 0);
    assert(q[1] == e[0]);
    assert(e[0] != '/');
    assert forall|i: int| 0 <= i < len && q[i] != '\\' && q[i] != '/' implies !is_escaped(q, i) by {
        if i == 0 {
            assert(backslashes_before(q, 0) == 0);
        }
    }
    assert forall|i: int| 0 <= i < len - 1 && #[trigger] is_separator(q, i) implies q[i + 1] != '/' by {
        if i > 0 {
            assert(is_escaped(q, i));
        }
    }
    assert(!is_separator(q, len - 1));
    lemma_separators(q, len);
    assert(separators(q, len) =~= seq![0int]) by {
        assert forall|t2: int| 0 <= t2 < separators(q, len).len() implies separators(q, len)[t2] == 0 by {
            let x = separators(q, len)[t2];
            assert(is_separator(q, x));
            if x > 0 {
                assert(is_escaped(q, x));
            }
        }
        assert(backslashes_before(q, 0) == 0);
        assert(is_separator(q, 0));
        assert(separators(q, len).contains(0));
        if separators(q, len).len() > 1 {
            assert(separators(q, len)[0] < separators(q, len)[1]);
        }
    }
    lemma_last_separator(q, len);
}

/// Appending plain characters to a valid prefix gives a valid path.
pub proof fn lemma_valid_extend(p: Seq<char>, t: Seq<char>)
    requires
        valid_prefix(p),
        t.len() > 0,
        plain_chars(t),
    ensures
        valid_path(p + t),
{
    let q = p + t;
    assert forall|i: int| 0 <= i <= p.len() implies backslashes_before(q, i) == backslashes_before(p, i) by {
        assert(q.take(i) == p.take(i));
        lemma_backslashes_prefix(q, p, i);
    }
    assert forall|i: int| p.len() < i <= q.len() implies backslashes_before(q, i) == 0 by {
        assert(q[i - 1] == t[i - 1 - p.len()]);
    }
    assert forall|i: int| 0 <= i < q.len() && q[i] != '\\' && q[i] != '/' implies !is_escaped(q, i) by {
        if i < p.len() {
            assert(q[i] == p[i]);
        }
    }
    assert forall|i: int| 0 <= i < q.len() - 1 && #[trigger] is_separator(q, i) implies q[i + 1] != '/' by {
        if i < p.len() - 1 {
            assert(q[i] == p[i]);
            assert(is_separator(p, i));
            assert(q[i + 1] == p[i + 1]);
        } else if i == p.len() - 1 {
            assert(q[i + 1] == t[0]);
        } else {
            assert(q[i] == t[i - p.len()]);
        }
    }
    assert(q[q.len() - 1] == t[t.len() - 1]);
}

/// A valid path cut right before a plain character is a valid prefix.
pub proof fn lemma_valid_prefix_cut(s: Seq<char>, j: int)
    requires
        valid_path(s),
        0 < j < s.len(),
        s[j] != '\\',
        s[j] != '/',
    ensures
        valid_prefix(s.take(j)),
{
    let p = s.take(j);
    assert forall|i: int| 0 <= i <= j implies backslashes_before(p, i) == backslashes_before(s, i) by {
        assert(p.take(i) == s.take(i));
        lemma_backslashes_prefix(p, s, i);
    }
    assert forall|i: int| 0 <= i < p.len() - 1 && #[trigger] is_separator(p, i) implies p[i + 1] != '/' by {
        assert(is_separator(s, i));
    }
    assert(!is_escaped(s, j));
}

/// Replacing everything from a ` ` on by ` (n)` keeps a path valid.
pub proof fn lemma_increment_valid(s: Seq<char>, j: int, n: nat)
    requires
        valid_path(s),
        0 <= j < s.len(),
        s[j] == ' ',
    ensures
        valid_path(s.take(j) + (seq![' ', '('] + decimal_spec(n) + seq![')'])),
{
    let tail = seq![' ', '('] + decimal_spec(n) + seq![')'];
    lemma_decimal_digits(n);
    assert forall|x: int| 0 <= x < tail.len() implies tail[x] != '\\' && tail[x] != '/' by {
        if 2 <= x < tail.len() - 1 {
            assert(tail[x] == decimal_spec(n)[x - 2]);
            assert(is_digit(decimal_spec(n)[x - 2]));
        }
    }
    lemma_valid_prefix_cut(s, j);
    lemma_valid_extend(s.take(j), tail);
}

// ---------------------------------------------------------------------------
// Executable helpers on characters
// ---------------------------------------------------------------------------

/// Finds the number suffix ` (n)` of `cs`, as [`numbered_suffix`] describes it.
fn find_numbered_suffix(cs: &Vec<char>) -> (r: Option<(usize, usize)>)
    ensures
        match r {
            Some((j, n)) => numbered_suffix(cs@) == Some((j as int, n as nat)) && char_at(cs@, j as int, ' '),
            None => numbered_suffix(cs@) is None,
        },
{
    let ghost s = cs@;
    let len = cs.len();
    let mut found = false;
    let mut j: usize = 0;
    let mut k: usize = 0;
    while k < len
        invariant
            cs@ == s,
            len == s.len(),
            k <= len,
            found ==> last_open_paren(s, k as int) == j && j + 2 <= k && s[j as int] == ' ',
            !found ==> last_open_paren(s, k as int) == -1,
        decreases len - k,
    {
        if k >= 1 && cs[k - 1] == ' ' && cs[k] == '(' {
            found = true;
            j = k - 1;
        }
        k += 1;
    }
    if found && j + 2 < len && cs[len - 1] == ')' {
        let ghost end = s.skip(j + 2);
        assert(end.drop_last() == cs@.subrange(j + 2, len - 1));
        if let Some(n) = parse_usize(cs, j + 2, len - 1) {
            return Some((j, n));
        }
    }
    None
}

/// `s` has the character `c` at position `i`.
pub open spec fn char_at(s: Seq<char>, i: int, c: char) -> bool {
    0 <= i < s.len() && s[i] == c
}

/// Whether `c` occurs in `cs`.
fn chars_contain(cs: &Vec<char>, c: char) -> (r: bool)
    ensures
        r == cs@.contains(c),
{
    let mut i: usize = 0;
    while i < cs.len()
        invariant
            i <= cs.len(),
            forall|k: int| 0 <= k < i ==> cs@[k] != c,
        decreases cs.len() - i,
    {
        if cs[i] == c {
            assert(cs@[i as int] == c);
            return true;
        }
        i += 1;
    }
    false
}

/// A text without backslashes unescapes to itself.
proof fn lemma_unescape_plain(s: Seq<char>)
    requires
        !s.contains('\\'),
    ensures
        unescape_seq(s) == s,
    decreases s.len(),
{
    if s.len() > 0 {
        assert(!s.skip(1).contains('\\')) by {
            if s.skip(1).contains('\\') {
                let k = choose|k: int| 0 <= k < s.skip(1).len() && s.skip(1)[k] == '\\';
                assert(s[k + 1] == '\\');
            }
        }
        lemma_unescape_plain(s.skip(1));
        assert(s[0] != '\\');
        assert(seq![s[0]] + s.skip(1) =~= s);
    }
}

/// A text without backslashes and slashes escapes to itself.
proof fn lemma_escape_plain(s: Seq<char>)
    requires
        !s.contains('\\'),
        !s.contains('/'),
    ensures
        escape_seq(s) == s,
    decreases s.len(),
{
    if s.len() > 0 {
        assert(!s.skip(1).contains('\\') && !s.skip(1).contains('/')) by {
            if s.skip(1).contains('\\') {
                let k = choose|k: int| 0 <= k < s.skip(1).len() && s.skip(1)[k] == '\\';
                assert(s[k + 1] == '\\');
            }
            if s.skip(1).contains('/') {
                let k = choose|k: int| 0 <= k < s.skip(1).len() && s.skip(1)[k] == '/';
                assert(s[k + 1] == '/');
            }
        }
        lemma_escape_plain(s.skip(1));
        assert(s[0] != '\\' && s[0] != '/');
        assert(seq![s[0]] + s.skip(1) =~= s);
    }
}

fn unescape_chars(cs: &Vec<char>) -> (r: Vec<char>)
    ensures
        r@ == unescape_seq(cs@),
{
    let mut r: Vec<char> = Vec::new();
    let mut i: usize = 0;
    assert(cs@.skip(0) == cs@);
    assert(r@ + unescape_seq(cs@) == unescape_seq(cs@));
    while i < cs.len()
        invariant
            i <= cs.len(),
            r@ + unescape_seq(cs@.skip(i as int)) == unescape_seq(cs@),
        decreases cs.len() - i,
    {
        let ghost rest = cs@.skip(i as int);
        if cs[i] == '\\' {
            if i + 1 < cs.len() {
                assert(rest.skip(2) == cs@.skip(i + 2));
                r.push(cs[i + 1]);
                assert(r@ == r@.drop_last().push(cs@[i + 1]));
                assert(unescape_seq(rest) == seq![cs@[i + 1]] + unescape_seq(cs@.skip(i + 2)));
                i += 2;
            } else {
                assert(unescape_seq(rest) == Seq::<char>::empty());
                i += 1;
                assert(cs@.skip(i as int) =~= Seq::<char>::empty());
            }
        } else {
            assert(rest.skip(1) == cs@.skip(i + 1));
            assert(unescape_seq(rest) == seq![cs@[i as int]] + unescape_seq(cs@.skip(i + 1)));
            r.push(cs[i]);
            i += 1;
        }
    }
    assert(cs@.skip(i as int) =~= Seq::<char>::empty());
    r
}

fn escape_chars(cs: &Vec<char>) -> (r: Vec<char>)
    ensures
        r@ == escape_seq(cs@),
{
    let mut r: Vec<char> = Vec::new();
    let mut i: usize = 0;
    assert(cs@.skip(0) == cs@);
    assert(r@ + escape_seq(cs@) == escape_seq(cs@));
    while i < cs.len()
        invariant
            i <= cs.len(),
            r@ + escape_seq(cs@.skip(i as int)) == escape_seq(cs@),
        decreases cs.len() - i,
    {
        let ghost rest = cs@.skip(i as int);
        assert(rest.skip(1) == cs@.skip(i + 1));
        let c = cs[i];
        if c == '\\' || c == '/' {
            assert(escape_seq(rest) == seq!['\\', c] + escape_seq(cs@.skip(i + 1)));
            r.push('\\');
            r.push(c);
        } else {
            assert(escape_seq(rest) == seq![c] + escape_seq(cs@.skip(i + 1)));
            r.push(c);
        }
        i += 1;
    }
    assert(cs@.skip(i as int) =~= Seq::<char>::empty());
    r
}

} // verus!

verus! {

// ---------------------------------------------------------------------------
// The path type
// ---------------------------------------------------------------------------

/// Error returned when a text is not a well formed [`Path`].
#[derive(Debug, Clone, PartialEq, Eq)]
pub enum PathCreationError {
    /// The rejected text.
    InvalidPath(String),
}

/// Path of a document or folder inside a project, e.g. `/parts/screws\/bolts/bolt1`
/// (the document `bolt1` in the folder `screws/bolts` inside `parts`).
///
/// Every value satisfies [`valid_path`].
#[derive(Debug, PartialEq, Eq, PartialOrd, Ord, Hash)]
pub struct Path(String);

impl Clone for Path {
    fn clone(&self) -> (r: Self)
        ensures
            r == *self,
    {
        proof {
            use_type_invariant(self);
        }
        Path(self.0.clone())
    }
}

impl View for Path {
    type V = Seq<char>;

    closed spec fn view(&self) -> Seq<char> {
        self.0@
    }
}

impl Path {
    #[verifier::type_invariant]
    closed spec fn well_formed(self) -> bool {
        valid_path(self.0@)
    }

    /// Checks `path` and wraps it as a [`Path`].
    ///
    /// Fails with [`PathCreationError::InvalidPath`] holding `path` exactly when
    /// `path` is not [`valid_path`].
    pub fn new(path: String) -> (r: Result<Path, PathCreationError>)
        ensures
            match r {
                Ok(p) => valid_path(path@) && p@ == path@,
                Err(PathCreationError::InvalidPath(e)) => !valid_path(path@) && e@ == path@,
            },
    {
        let cs = chars_of(path.as_str());
        let ghost s = path@;
        if cs.len() == 0 || cs[0] != '/' {
            return Err(PathCreationError::InvalidPath(path));
        }
        let mut escaped = false;
        let mut last_char_was_slash = false;
        let mut i: usize = 0;
        while i < cs.len()
            invariant
                cs@ == s,
                path@ == s,
                s.len() > 0,
                s[0] == '/',
                i <= s.len(),
                escaped == is_escaped(s, i as int),
                last_char_was_slash == (i > 0 && is_separator(s, i - 1)),
                forall|j: int| 0 <= j < i && s[j] != '\\' && s[j] != '/' ==> !is_escaped(s, j),
                forall|j: int| 0 <= j < i - 1 && #[trigger] is_separator(s, j) ==> s[j + 1] != '/',
            decreases s.len() - i,
        {
            let c = cs[i];
            if c == '\\' {
                escaped = !escaped;
                last_char_was_slash = false;
            } else if escaped {
                if c != '/' {
                    assert(is_escaped(s, i as int));
                    return Err(PathCreationError::InvalidPath(path));
                }
                escaped = false;
                last_char_was_slash = false;
            } else if c == '/' {
                if last_char_was_slash {
                    assert(is_separator(s, i - 1));
                    return Err(PathCreationError::InvalidPath(path));
                }
                last_char_was_slash = true;
            } else {
                last_char_was_slash = false;
            }
            i += 1;
        }
        if last_char_was_slash || escaped {
            return Err(PathCreationError::InvalidPath(path));
        }
        Ok(Path(path))
    }

    /// The text of the path.
    pub fn as_str(&self) -> (r: &str)
        ensures
            r@ == self@,
            valid_path(r@),
    {
        proof {
            use_type_invariant(self);
        }
        self.0.as_str()
    }

    /// The text of the path as an owned `String` (what `Display` prints).
    pub fn to_string(&self) -> (r: String)
        ensures
            r@ == self@,
    {
        self.0.clone()
    }

    /// The last component of the path, still escaped (`\/` and `\\` stay as they are).
    pub fn get_name_escaped(&self) -> (r: &str)
        ensures
            r@ == name_escaped(self@),
    {
        let s = self.0.as_str();
        let cs = chars_of(s);
        let ghost sq = self@;
        let mut escaped = false;
        let mut start: usize = 0;
        let mut i: usize = 0;
        while i < cs.len()
            invariant
                cs@ == sq,
                i <= sq.len(),
                escaped == is_escaped(sq, i as int),
                start as int == last_separator(sq, i as int) + 1,
                start <= i,
            decreases sq.len() - i,
        {
            let c = cs[i];
            if c == '/' && !escaped {
                start = i + 1;
            }
            if c == '\\' {
                escaped = !escaped;
            } else {
                escaped = false;
            }
            i += 1;
        }
        s.substring_char(start, cs.len())
    }

    /// The last component of the path with escapes removed; borrowed from
    /// the path exactly when it holds no backslash.
    pub fn get_name(&self) -> (r: Cow<'_, str>)
        ensures
            r@ == unescape_seq(name_escaped(self@)),
            (r is Borrowed) == !name_escaped(self@).contains('\\'),
    {
        Path::unescape(self.get_name_escaped())
    }

    /// Iterates over the enclosing folders of the path, from the root, still escaped.
    pub fn ancestors_unescaped(&self) -> (r: AncestorsUnescapedIter<'_>)
        ensures
            r.remaining() == folders_escaped(self@),
    {
        proof {
            use_type_invariant(self);
        }
        let s = self.0.as_str();
        proof {
            lemma_separators(s@, s@.len() as int);
            assert(is_separator(s@, 0));
            let seps = separators(s@, s@.len() as int);
            assert(seps.contains(0));
            let q = choose|q: int| 0 <= q < seps.len() && seps[q] == 0;
            if q > 0 {
                assert(seps[0] < seps[q]);
                assert(is_separator(s@, seps[0]));
            }
            assert(seps[0] == 0);
            assert(folders_escaped(s@).skip(0) == folders_escaped(s@));
        }
        AncestorsUnescapedIter { path: s, start: 1, taken: Ghost(0) }
    }

    /// Iterates over the enclosing folders of the path, from the root, with escapes removed:
    /// the folders of [`Path::ancestors_unescaped`], each unescaped.
    pub fn ancestors(&self) -> (r: AncestorsIter<'_>)
        ensures
            r.remaining() == folders_escaped(self@),
            r.remaining_unescaped() == folders_unescaped(self@),
    {
        AncestorsIter(self.ancestors_unescaped())
    }

    /// The path with its number suffix incremented: `/a/part (4)` becomes
    /// `/a/part (5)`, and a path without such a suffix gets ` (2)` appended.
    pub fn increment_name_suffix(&self) -> (r: Path)
        requires
            numbered_suffix(self@) matches Some((_, n)) ==> n < usize::MAX,
        ensures
            r@ == increment_name_seq(self@),
    {
        proof {
            use_type_invariant(self);
        }
        let cs = chars_of(self.0.as_str());
        let ghost s = self@;
        let mut r: Vec<char> = Vec::new();
        match find_numbered_suffix(&cs) {
            Some((j, n)) => {
                push_range(&mut r, &cs, 0, j);
                r.push(' ');
                r.push('(');
                let digits = decimal_chars(n + 1);
                push_range(&mut r, &digits, 0, digits.len());
                r.push(')');
                proof {
                    assert(digits@.subrange(0, digits.len() as int) == digits@);
                    assert(r@ == s.take(j as int) + (seq![' ', '('] + decimal_spec((n + 1) as nat)
                        + seq![')']));
                    lemma_increment_valid(s, j as int, (n + 1) as nat);
                }
            },
            None => {
                push_range(&mut r, &cs, 0, cs.len());
                r.push(' ');
                r.push('(');
                r.push('2');
                r.push(')');
                proof {
                    assert(cs@.subrange(0, cs.len() as int) == s);
                    assert(r@ == s + seq![' ', '(', '2', ')']);
                    lemma_valid_extend(s, seq![' ', '(', '2', ')']);
                }
            },
        }
        Path(string_of(&r))
    }

    /// Removes the escaping backslashes of `escaped`; `escaped` itself,
    /// borrowed, exactly when it holds no backslash.
    pub fn unescape(escaped: &str) -> (r: Cow<'_, str>)
        ensures
            r@ == unescape_seq(escaped@),
            (r is Borrowed) == !escaped@.contains('\\'),
            r matches Cow::Borrowed(b) ==> b == escaped,
    {
        let cs = chars_of(escaped);
        if !chars_contain(&cs, '\\') {
            proof {
                lemma_unescape_plain(cs@);
            }
            Cow::Borrowed(escaped)
        } else {
            Cow::Owned(string_of(&unescape_chars(&cs)))
        }
    }

    /// Puts a backslash before every `\` and `/` of `string`; `string`
    /// itself, borrowed, exactly when it holds neither.
    pub fn escape(string: &str) -> (r: Cow<'_, str>)
        ensures
            r@ == escape_seq(string@),
            (r is Borrowed) == !(string@.contains('\\') || string@.contains('/')),
            r matches Cow::Borrowed(b) ==> b == string,
    {
        let cs = chars_of(string);
        if !chars_contain(&cs, '\\') && !chars_contain(&cs, '/') {
            proof {
                lemma_escape_plain(cs@);
            }
            Cow::Borrowed(string)
        } else {
            Cow::Owned(string_of(&escape_chars(&cs)))
        }
    }
}

} // verus!

verus! {

/// Like [`Path`], but also allowing the root folder.
#[derive(Debug, Clone)]
pub enum FolderPath {
    Root,
    Path(Path),
}

/// Where a folder is moved to.
#[derive(Debug, Clone)]
pub enum FolderTarget {
    Root,
    Path(Path),
    OneBack,
}

} // verus!

verus! {

/// Iterator over the enclosing folders of a [`Path`], from the root, still escaped.
pub struct AncestorsUnescapedIter<'a> {
    path: &'a str,
    start: usize,
    taken: Ghost<int>,
}

impl<'a> AncestorsUnescapedIter<'a> {
    #[verifier::type_invariant]
    closed spec fn inv(self) -> bool {
        let s = self.path@;
        let seps = separators(s, s.len() as int);
        &&& valid_path(s)
        &&& 0 <= self.taken@ < seps.len()
        &&& self.start == seps[self.taken@] + 1
    }

    /// The folders that the iterator has yet to yield.
    pub closed spec fn remaining(&self) -> Seq<Seq<char>> {
        folders_escaped(self.path@).skip(self.taken@)
    }

    /// The next folder, still escaped; `None` once all folders were yielded.
    pub fn next(&mut self) -> (r: Option<&'a str>)
        ensures
            match r {
                Some(x) => old(self).remaining().len() > 0 && x@ == old(self).remaining()[0]
                    && final(self).remaining() == old(self).remaining().skip(1),
                None => old(self).remaining().len() == 0 && final(self).remaining() == old(self).remaining(),
            },
    {
        proof {
            use_type_invariant(&*self);
        }
        let ghost s = self.path@;
        let ghost seps = separators(s, s.len() as int);
        let ghost t = self.taken@;
        proof {
            lemma_separators(s, s.len() as int);
            assert(is_separator(s, seps[t]));
        }
        let chars = chars_of(self.path);
        let len = chars.len();
        let mut escaped = false;
        let mut found = false;
        let mut i = self.start;
        while i < len && !found
            invariant
                chars@ == s,
                len == s.len(),
                0 <= t < seps.len(),
                self.start == seps[t] + 1,
                self.start <= i <= len,
                !found ==> escaped == is_escaped(s, i as int),
                found ==> i < len && is_separator(s, i as int),
                forall|x: int| seps[t] < x < i ==> !is_separator(s, x),
            decreases len - i + (if found { 0int } else { 1int }),
        {
            let c = chars[i];
            if c == '/' && !escaped {
                found = true;
            } else {
                if c == '\\' {
                    escaped = !escaped;
                } else {
                    escaped = false;
                }
                i += 1;
            }
        }
        if found {
            proof {
                assert(is_separator(s, i as int));
                assert(seps.contains(i as int));
                let q = choose|q: int| 0 <= q < seps.len() && seps[q] == i;
                assert(q > t);
                assert(seps[t + 1] == i) by {
                    if seps[t + 1] < i {
                        assert(is_separator(s, seps[t + 1]));
                    }
                }
            }
            let part = self.path.substring_char(self.start, i);
            *self = AncestorsUnescapedIter { path: self.path, start: i + 1, taken: Ghost(t + 1) };
            proof {
                assert(part@ == old(self).remaining()[0]);
                assert(self.remaining() =~= old(self).remaining().skip(1));
            }
            Some(part)
        } else {
            proof {
                if t + 1 < seps.len() {
                    assert(is_separator(s, seps[t + 1]));
                    assert(seps[t + 1] > seps[t]);
                }
            }
            None
        }
    }
}

/// Iterator over the enclosing folders of a [`Path`], from the root, with escapes removed.
pub struct AncestorsIter<'a>(AncestorsUnescapedIter<'a>);

impl<'a> AncestorsIter<'a> {
    /// The folders (still escaped) that the iterator has yet to yield.
    pub closed spec fn remaining(&self) -> Seq<Seq<char>> {
        self.0.remaining()
    }

    /// The folders that the iterator has yet to yield, as it yields them.
    pub open spec fn remaining_unescaped(&self) -> Seq<Seq<char>> {
        self.remaining().map_values(|c: Seq<char>| unescape_seq(c))
    }

    /// The next folder with escapes removed, borrowed from the path when it
    /// holds no backslash; `None` once all folders were yielded.
    pub fn next(&mut self) -> (r: Option<Cow<'a, str>>)
        ensures
            match r {
                Some(x) => old(self).remaining().len() > 0 && x@ == unescape_seq(old(self).remaining()[0])
                    && (x is Borrowed) == !old(self).remaining()[0].contains('\\')
                    && x@ == old(self).remaining_unescaped()[0]
                    && final(self).remaining() == old(self).remaining().skip(1)
                    && final(self).remaining_unescaped() == old(self).remaining_unescaped().skip(1),
                None => old(self).remaining().len() == 0 && final(self).remaining() == old(self).remaining(),
            },
    {
        match self.0.next() {
            Some(part) => Some(Path::unescape(part)),
            None => None,
        }
    }
}

} // verus!
