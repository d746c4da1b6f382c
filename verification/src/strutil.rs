//! Character-sequence utilities the metafile parsers are built on: trimming
//! surrounding whitespace, splitting on a separator character, and the
//! lexicographic / numeric comparisons that identifier ordering uses.

use vstd::prelude::*;
use core::cmp::Ordering;

verus! {

/// The whitespace characters stripped from the ends of a metafile body.
pub open spec fn is_space(c: char) -> bool {
    c == ' ' || c == '\t' || c == '\n' || c == '\r'
}

pub open spec fn trim_front(s: Seq<char>) -> Seq<char>
    decreases s.len(),
{
    if s.len() > 0 && is_space(s[0]) {
        trim_front(s.drop_first())
    } else {
        s
    }
}

pub open spec fn trim_back(s: Seq<char>) -> Seq<char>
    decreases s.len(),
{
    if s.len() > 0 && is_space(s.last()) {
        trim_back(s.drop_last())
    } else {
        s
    }
}

/// A sequence with surrounding whitespace removed.
pub open spec fn trimmed(s: Seq<char>) -> Seq<char> {
    trim_back(trim_front(s))
}

proof fn lemma_trim_front_at(s: Seq<char>, a: int)
    requires
        0 <= a <= s.len(),
        forall|j: int| 0 <= j < a ==> is_space(s[j]),
        a < s.len() ==> !is_space(s[a]),
    ensures
        trim_front(s) == s.subrange(a, s.len() as int),
    decreases a,
{
    if a == 0 {
        assert(s.subrange(0, s.len() as int) =~= s);
    } else {
        lemma_trim_front_at(s.drop_first(), a - 1);
        assert(s.drop_first().subrange(a - 1, s.len() - 1) =~= s.subrange(a, s.len() as int));
    }
}

proof fn lemma_trim_back_at(s: Seq<char>, b: int)
    requires
        0 <= b <= s.len(),
        forall|j: int| b <= j < s.len() ==> is_space(s[j]),
        b > 0 ==> !is_space(s[b - 1]),
    ensures
        trim_back(s) == s.subrange(0, b),
    decreases s.len() - b,
{
    if b == s.len() {
        assert(s.subrange(0, s.len() as int) =~= s);
    } else {
        lemma_trim_back_at(s.drop_last(), b);
        assert(s.drop_last().subrange(0, b) =~= s.subrange(0, b));
    }
}

fn space_char(c: char) -> (r: bool)
    ensures
        r == is_space(c),
{
    c == ' ' || c == '\t' || c == '\n' || c == '\r'
}

/// Removes leading and trailing whitespace, as the metadata reader does to
/// every metafile body it returns.
pub fn trim_str(s: &str) -> (r: String)
    ensures
        r@ == trimmed(s@),
{
    let n = s.unicode_len();
    let mut a: usize = 0;
    while a < n && space_char(s.get_char(a))
        invariant
            0 <= a <= n,
            n == s@.len(),
            forall|j: int| 0 <= j < a ==> is_space(s@[j]),
        decreases n - a,
    {
        a += 1;
    }
    let mut b: usize = n;
    while b > a && space_char(s.get_char(b - 1))
        invariant
            a <= b <= n,
            n == s@.len(),
            forall|j: int| b <= j < n ==> is_space(s@[j]),
        decreases b,
    {
        b -= 1;
    }
    let r = s.substring_char(a, b).to_owned();
    proof {
        lemma_trim_front_at(s@, a as int);
        let t = s@.subrange(a as int, n as int);
        lemma_trim_back_at(t, b - a);
        assert(t.subrange(0, b - a) =~= s@.subrange(a as int, b as int));
    }
    r
}

/// Splitting a sequence on a separator character, with the semantics of
/// `str::split`: `n` separators yield `n + 1` pieces, empty pieces included.
pub open spec fn split_on(s: Seq<char>, sep: char) -> Seq<Seq<char>>
    decreases s.len(),
{
    if s.len() == 0 {
        seq![Seq::<char>::empty()]
    } else if s[0] == sep {
        seq![Seq::<char>::empty()] + split_on(s.drop_first(), sep)
    } else {
        let rest = split_on(s.drop_first(), sep);
        seq![seq![s[0]] + rest[0]] + rest.drop_first()
    }
}

pub proof fn lemma_split_on_len(s: Seq<char>, sep: char)
    ensures
        split_on(s, sep).len() >= 1,
    decreases s.len(),
{
    if s.len() > 0 {
        lemma_split_on_len(s.drop_first(), sep);
    }
}

pub proof fn lemma_split_on_no_sep(s: Seq<char>, sep: char)
    requires
        forall|j: int| 0 <= j < s.len() ==> s[j] != sep,
    ensures
        split_on(s, sep) == seq![s],
    decreases s.len(),
{
    if s.len() == 0 {
        assert(s =~= Seq::<char>::empty());
    } else {
        lemma_split_on_no_sep(s.drop_first(), sep);
        assert(seq![s[0]] + s.drop_first() =~= s);
        assert(split_on(s, sep) =~= seq![s]);
    }
}

pub proof fn lemma_split_on_piece(piece: Seq<char>, rest: Seq<char>, sep: char)
    requires
        forall|j: int| 0 <= j < piece.len() ==> piece[j] != sep,
    ensures
        split_on(piece + seq![sep] + rest, sep) == seq![piece] + split_on(rest, sep),
    decreases piece.len(),
{
    let s = piece + seq![sep] + rest;
    if piece.len() == 0 {
        assert(piece =~= Seq::<char>::empty());
        assert(s[0] == sep);
        assert(s.drop_first() =~= rest);
        assert(split_on(s, sep) =~= seq![piece] + split_on(rest, sep));
    } else {
        lemma_split_on_piece(piece.drop_first(), rest, sep);
        assert(s[0] == piece[0]);
        assert(s.drop_first() =~= piece.drop_first() + seq![sep] + rest);
        lemma_split_on_len(rest, sep);
        let inner = split_on(s.drop_first(), sep);
        assert(inner == seq![piece.drop_first()] + split_on(rest, sep));
        assert(inner[0] == piece.drop_first());
        let first = seq![s[0]] + inner[0];
        let tail = inner.drop_first();
        assert(first =~= piece);
        assert(tail =~= split_on(rest, sep));
        assert(split_on(s, sep) == seq![first] + tail);
        assert(seq![first] =~= seq![piece]);
    }
}

/// Splits `s` at every occurrence of `sep`.
pub fn split_str(s: &str, sep: char) -> (r: Vec<String>)
    ensures
        r.deep_view() == split_on(s@, sep),
{
    let n = s.unicode_len();
    let mut r: Vec<String> = Vec::new();
    let mut start: usize = 0;
    let mut i: usize = 0;
    proof {
        assert(s@.subrange(0, n as int) =~= s@);
        assert(r.deep_view() =~= Seq::<Seq<char>>::empty());
        assert(r.deep_view() + split_on(s@, sep) =~= split_on(s@, sep));
    }
    while i < n
        invariant
            0 <= start <= i <= n,
            n == s@.len(),
            forall|j: int| start <= j < i ==> s@[j] != sep,
            split_on(s@, sep) == r.deep_view() + split_on(
                s@.subrange(start as int, n as int),
                sep,
            ),
        decreases n - i,
    {
        if s.get_char(i) == sep {
            let piece = s.substring_char(start, i).to_owned();
            let ghost prev = r.deep_view();
            proof {
                assert(s@.subrange(start as int, n as int) =~= piece@ + seq![sep] + s@.subrange(
                    i + 1,
                    n as int,
                ));
                lemma_split_on_piece(piece@, s@.subrange(i + 1, n as int), sep);
            }
            r.push(piece);
            proof {
                assert(r.deep_view() =~= prev.push(piece@));
                assert(split_on(s@, sep) =~= r.deep_view() + split_on(
                    s@.subrange(i + 1, n as int),
                    sep,
                ));
            }
            start = i + 1;
        }
        i += 1;
    }
    let last = s.substring_char(start, n).to_owned();
    let ghost prev = r.deep_view();
    proof {
        lemma_split_on_no_sep(s@.subrange(start as int, n as int), sep);
    }
    r.push(last);
    proof {
        assert(r.deep_view() =~= prev.push(last@));
        assert(split_on(s@, sep) =~= r.deep_view());
    }
    r
}

/// Splitting at the first occurrence of `sep` only: `None` when `sep` does
/// not occur, else the pieces strictly before and strictly after it.
pub open spec fn split_once_on(s: Seq<char>, sep: char) -> Option<(Seq<char>, Seq<char>)>
    decreases s.len(),
{
    if s.len() == 0 {
        None
    } else if s[0] == sep {
        Some((Seq::<char>::empty(), s.drop_first()))
    } else {
        match split_once_on(s.drop_first(), sep) {
            None => None,
            Some(p) => Some((seq![s[0]] + p.0, p.1)),
        }
    }
}

pub proof fn lemma_split_once_on_no_sep(s: Seq<char>, sep: char)
    requires
        forall|j: int| 0 <= j < s.len() ==> s[j] != sep,
    ensures
        split_once_on(s, sep) is None,
    decreases s.len(),
{
    if s.len() > 0 {
        lemma_split_once_on_no_sep(s.drop_first(), sep);
    }
}

pub proof fn lemma_split_once_on_at(s: Seq<char>, sep: char, i: int)
    requires
        0 <= i < s.len(),
        s[i] == sep,
        forall|j: int| 0 <= j < i ==> s[j] != sep,
    ensures
        split_once_on(s, sep) == Some(
            (s.subrange(0, i), s.subrange(i + 1, s.len() as int)),
        ),
    decreases i,
{
    if i == 0 {
        assert(s.subrange(0, 0) =~= Seq::<char>::empty());
        assert(s.subrange(1, s.len() as int) =~= s.drop_first());
    } else {
        lemma_split_once_on_at(s.drop_first(), sep, i - 1);
        assert(s.drop_first().subrange(0, i - 1) =~= s.subrange(1, i));
        assert(s.drop_first().subrange(i, s.len() - 1) =~= s.subrange(i + 1, s.len() as int));
        assert(seq![s[0]] + s.subrange(1, i) =~= s.subrange(0, i));
    }
}

/// Splits `s` at the first occurrence of `sep`, if any.
pub fn split_once_str(s: &str, sep: char) -> (r: Option<(String, String)>)
    ensures
        (match r {
            Some(p) => split_once_on(s@, sep) == Some((p.0@, p.1@)),
            None => split_once_on(s@, sep) is None,
        }),
{
    let n = s.unicode_len();
    let mut i: usize = 0;
    while i < n
        invariant
            0 <= i <= n,
            n == s@.len(),
            forall|j: int| 0 <= j < i ==> s@[j] != sep,
        decreases n - i,
    {
        if s.get_char(i) == sep {
            let before = s.substring_char(0, i).to_owned();
            let after = s.substring_char(i + 1, n).to_owned();
            proof {
                lemma_split_once_on_at(s@, sep, i as int);
            }
            return Some((before, after));
        }
        i += 1;
    }
    proof {
        lemma_split_once_on_no_sep(s@, sep);
    }
    None
}

/// Runs a line parser over every line; one failing line fails the whole
/// file.
pub open spec fn parsed_lines<T>(
    lines: Seq<Seq<char>>,
    p: spec_fn(Seq<char>) -> Option<T>,
) -> Option<Seq<T>>
    decreases lines.len(),
{
    if lines.len() == 0 {
        Some(Seq::<T>::empty())
    } else {
        match parsed_lines(lines.drop_last(), p) {
            None => None,
            Some(pre) => match p(lines.last()) {
                None => None,
                Some(v) => Some(pre.push(v)),
            },
        }
    }
}

pub proof fn lemma_parsed_lines_prefix_none<T>(
    lines: Seq<Seq<char>>,
    p: spec_fn(Seq<char>) -> Option<T>,
    k: int,
)
    requires
        0 <= k <= lines.len(),
        parsed_lines(lines.take(k), p) is None,
    ensures
        parsed_lines(lines, p) is None,
    decreases lines.len() - k,
{
    if k == lines.len() {
        assert(lines.take(k) =~= lines);
    } else {
        assert(lines.take(k + 1).drop_last() =~= lines.take(k));
        lemma_parsed_lines_prefix_none(lines, p, k + 1);
    }
}

/// Inserts or replaces a key in an association list: a key already present
/// keeps its first position, a new key is appended.
pub open spec fn upsert<K, V>(m: Seq<(K, V)>, k: K, v: V) -> Seq<(K, V)>
    decreases m.len(),
{
    if m.len() == 0 {
        seq![(k, v)]
    } else if m[0].0 == k {
        seq![(k, v)] + m.drop_first()
    } else {
        seq![m[0]] + upsert(m.drop_first(), k, v)
    }
}

pub proof fn lemma_upsert_at<K, V>(m: Seq<(K, V)>, k: K, v: V, j: int)
    requires
        0 <= j < m.len(),
        m[j].0 == k,
        forall|i: int| 0 <= i < j ==> m[i].0 != k,
    ensures
        upsert(m, k, v) == m.update(j, (k, v)),
    decreases j,
{
    if j == 0 {
        assert(upsert(m, k, v) =~= m.update(0, (k, v)));
    } else {
        assert(m.drop_first()[j - 1].0 == k);
        lemma_upsert_at(m.drop_first(), k, v, j - 1);
        assert(seq![m[0]] + m.drop_first().update(j - 1, (k, v)) =~= m.update(j, (k, v)));
    }
}

pub proof fn lemma_upsert_missing<K, V>(m: Seq<(K, V)>, k: K, v: V)
    requires
        forall|i: int| 0 <= i < m.len() ==> m[i].0 != k,
    ensures
        upsert(m, k, v) == m.push((k, v)),
    decreases m.len(),
{
    if m.len() == 0 {
        assert(upsert(m, k, v) =~= m.push((k, v)));
    } else {
        lemma_upsert_missing(m.drop_first(), k, v);
        assert(seq![m[0]] + m.drop_first().push((k, v)) =~= m.push((k, v)));
    }
}

/// The value stored under a key in an association list.
pub open spec fn assoc_get<K, V>(m: Seq<(K, V)>, k: K) -> Option<V>
    decreases m.len(),
{
    if m.len() == 0 {
        None
    } else if m[0].0 == k {
        Some(m[0].1)
    } else {
        assoc_get(m.drop_first(), k)
    }
}

/// Parses every line into a key and value and folds the pairs into an
/// association list, later lines overwriting earlier keys in place; one
/// unparsable line fails the whole file.
pub open spec fn assoc_lines<K, V>(
    lines: Seq<Seq<char>>,
    p: spec_fn(Seq<char>) -> Option<(K, V)>,
) -> Option<Seq<(K, V)>>
    decreases lines.len(),
{
    if lines.len() == 0 {
        Some(Seq::<(K, V)>::empty())
    } else {
        match assoc_lines(lines.drop_last(), p) {
            None => None,
            Some(m) => match p(lines.last()) {
                None => None,
                Some(kv) => Some(upsert(m, kv.0, kv.1)),
            },
        }
    }
}

pub proof fn lemma_assoc_lines_prefix_none<K, V>(
    lines: Seq<Seq<char>>,
    p: spec_fn(Seq<char>) -> Option<(K, V)>,
    k: int,
)
    requires
        0 <= k <= lines.len(),
        assoc_lines(lines.take(k), p) is None,
    ensures
        assoc_lines(lines, p) is None,
    decreases lines.len() - k,
{
    if k == lines.len() {
        assert(lines.take(k) =~= lines);
    } else {
        assert(lines.take(k + 1).drop_last() =~= lines.take(k));
        lemma_assoc_lines_prefix_none(lines, p, k + 1);
    }
}

/// A sequence with trailing newline characters removed.
pub open spec fn strip_nl_back(s: Seq<char>) -> Seq<char>
    decreases s.len(),
{
    if s.len() > 0 && s.last() == '\n' {
        strip_nl_back(s.drop_last())
    } else {
        s
    }
}

proof fn lemma_strip_nl_back_at(s: Seq<char>, b: int)
    requires
        0 <= b <= s.len(),
        forall|j: int| b <= j < s.len() ==> s[j] == '\n',
        b > 0 ==> s[b - 1] != '\n',
    ensures
        strip_nl_back(s) == s.subrange(0, b),
    decreases s.len() - b,
{
    if b == s.len() {
        assert(s.subrange(0, s.len() as int) =~= s);
    } else {
        lemma_strip_nl_back_at(s.drop_last(), b);
        assert(s.drop_last().subrange(0, b) =~= s.subrange(0, b));
    }
}

/// Removes trailing newline characters.
pub fn strip_nl_str(s: &str) -> (r: String)
    ensures
        r@ == strip_nl_back(s@),
{
    let n = s.unicode_len();
    let mut b: usize = n;
    while b > 0 && s.get_char(b - 1) == '\n'
        invariant
            0 <= b <= n,
            n == s@.len(),
            forall|j: int| b <= j < n ==> s@[j] == '\n',
        decreases b,
    {
        b -= 1;
    }
    let r = s.substring_char(0, b).to_owned();
    proof {
        lemma_strip_nl_back_at(s@, b as int);
    }
    r
}

/// Lexicographic order over code points; a proper prefix comes first.
pub open spec fn lex_cmp(a: Seq<char>, b: Seq<char>) -> Ordering
    decreases a.len() + b.len(),
{
    if a.len() == 0 && b.len() == 0 {
        Ordering::Equal
    } else if a.len() == 0 {
        Ordering::Less
    } else if b.len() == 0 {
        Ordering::Greater
    } else if (a[0] as u32) < (b[0] as u32) {
        Ordering::Less
    } else if (a[0] as u32) > (b[0] as u32) {
        Ordering::Greater
    } else {
        lex_cmp(a.drop_first(), b.drop_first())
    }
}

/// Compares two strings lexicographically by code point.
pub fn lex_cmp_str(a: &str, b: &str) -> (r: Ordering)
    ensures
        r == lex_cmp(a@, b@),
{
    let an = a.unicode_len();
    let bn = b.unicode_len();
    let mut i: usize = 0;
    proof {
        assert(a@.skip(0) =~= a@);
        assert(b@.skip(0) =~= b@);
    }
    while i < an && i < bn
        invariant
            0 <= i <= an,
            0 <= i <= bn,
            an == a@.len(),
            bn == b@.len(),
            lex_cmp(a@, b@) == lex_cmp(a@.skip(i as int), b@.skip(i as int)),
        decreases an - i,
    {
        let ca = a.get_char(i) as u32;
        let cb = b.get_char(i) as u32;
        if ca < cb {
            return Ordering::Less;
        }
        if ca > cb {
            return Ordering::Greater;
        }
        proof {
            assert(a@.skip(i as int).drop_first() =~= a@.skip(i + 1));
            assert(b@.skip(i as int).drop_first() =~= b@.skip(i + 1));
        }
        i += 1;
    }
    if an < bn {
        Ordering::Less
    } else if an > bn {
        Ordering::Greater
    } else {
        Ordering::Equal
    }
}

/// Reports whether two strings hold the same characters.
pub fn str_eq(a: &str, b: &str) -> (r: bool)
    ensures
        r == (a@ == b@),
{
    let an = a.unicode_len();
    let bn = b.unicode_len();
    if an != bn {
        return false;
    }
    let mut i: usize = 0;
    while i < an
        invariant
            0 <= i <= an,
            an == a@.len(),
            an == b@.len(),
            forall|j: int| 0 <= j < i ==> a@[j] == b@[j],
        decreases an - i,
    {
        if a.get_char(i) != b.get_char(i) {
            return false;
        }
        i += 1;
    }
    proof {
        assert(a@ =~= b@);
    }
    true
}

/// An ASCII decimal digit.
pub open spec fn is_digit(c: char) -> bool {
    48 <= c as u32 <= 57
}

/// A non-empty sequence of decimal digits.
pub open spec fn all_digits(s: Seq<char>) -> bool {
    s.len() > 0 && forall|j: int| 0 <= j < s.len() ==> is_digit(s[j])
}

fn digit_char(c: char) -> (r: bool)
    ensures
        r == is_digit(c),
{
    let v = c as u32;
    48 <= v && v <= 57
}

/// Reports whether `s` is a non-empty run of decimal digits.
pub fn all_digits_str(s: &str) -> (r: bool)
    ensures
        r == all_digits(s@),
{
    let n = s.unicode_len();
    if n == 0 {
        return false;
    }
    let mut i: usize = 0;
    while i < n
        invariant
            0 <= i <= n,
            n == s@.len(),
            forall|j: int| 0 <= j < i ==> is_digit(s@[j]),
        decreases n - i,
    {
        if !digit_char(s.get_char(i)) {
            return false;
        }
        i += 1;
    }
    true
}

pub open spec fn strip_zeros(s: Seq<char>) -> Seq<char>
    decreases s.len(),
{
    if s.len() > 0 && s[0] == '0' {
        strip_zeros(s.drop_first())
    } else {
        s
    }
}

proof fn lemma_strip_zeros_at(s: Seq<char>, a: int)
    requires
        0 <= a <= s.len(),
        forall|j: int| 0 <= j < a ==> s[j] == '0',
        a < s.len() ==> s[a] != '0',
    ensures
        strip_zeros(s) == s.subrange(a, s.len() as int),
    decreases a,
{
    if a == 0 {
        assert(s.subrange(0, s.len() as int) =~= s);
    } else {
        lemma_strip_zeros_at(s.drop_first(), a - 1);
        assert(s.drop_first().subrange(a - 1, s.len() - 1) =~= s.subrange(a, s.len() as int));
    }
}

/// Order of two digit runs read as numbers: leading zeros are ignored, a
/// longer remainder is the larger number, equal lengths compare digit-wise.
pub open spec fn numeric_cmp(a: Seq<char>, b: Seq<char>) -> Ordering {
    let sa = strip_zeros(a);
    let sb = strip_zeros(b);
    if sa.len() < sb.len() {
        Ordering::Less
    } else if sa.len() > sb.len() {
        Ordering::Greater
    } else {
        lex_cmp(sa, sb)
    }
}

/// Compares two digit runs by numeric value.
pub fn numeric_cmp_str(a: &str, b: &str) -> (r: Ordering)
    ensures
        r == numeric_cmp(a@, b@),
{
    let an = a.unicode_len();
    let bn = b.unicode_len();
    let mut sa: usize = 0;
    while sa < an && a.get_char(sa) == '0'
        invariant
            0 <= sa <= an,
            an == a@.len(),
            forall|j: int| 0 <= j < sa ==> a@[j] == '0',
        decreases an - sa,
    {
        sa += 1;
    }
    let mut sb: usize = 0;
    while sb < bn && b.get_char(sb) == '0'
        invariant
            0 <= sb <= bn,
            bn == b@.len(),
            forall|j: int| 0 <= j < sb ==> b@[j] == '0',
        decreases bn - sb,
    {
        sb += 1;
    }
    proof {
        lemma_strip_zeros_at(a@, sa as int);
        lemma_strip_zeros_at(b@, sb as int);
    }
    if an - sa < bn - sb {
        Ordering::Less
    } else if an - sa > bn - sb {
        Ordering::Greater
    } else {
        lex_cmp_str(a.substring_char(sa, an), b.substring_char(sb, bn))
    }
}

/// Order of two version segments: digit runs compare numerically, anything
/// else lexicographically.
pub open spec fn segment_cmp(a: Seq<char>, b: Seq<char>) -> Ordering {
    if all_digits(a) && all_digits(b) {
        numeric_cmp(a, b)
    } else {
        lex_cmp(a, b)
    }
}

fn segment_cmp_str(a: &str, b: &str) -> (r: Ordering)
    ensures
        r == segment_cmp(a@, b@),
{
    if all_digits_str(a) && all_digits_str(b) {
        numeric_cmp_str(a, b)
    } else {
        lex_cmp_str(a, b)
    }
}

/// Segment-wise order of two dot-separated version strings, already split:
/// the first unequal segment decides; a proper prefix comes first.
pub open spec fn segments_cmp(a: Seq<Seq<char>>, b: Seq<Seq<char>>) -> Ordering
    decreases a.len() + b.len(),
{
    if a.len() == 0 && b.len() == 0 {
        Ordering::Equal
    } else if a.len() == 0 {
        Ordering::Less
    } else if b.len() == 0 {
        Ordering::Greater
    } else if segment_cmp(a[0], b[0]) == Ordering::Equal {
        segments_cmp(a.drop_first(), b.drop_first())
    } else {
        segment_cmp(a[0], b[0])
    }
}

/// Order of two version strings: dot-separated segments compared in turn,
/// numerically where both are digit runs.
pub open spec fn version_cmp(a: Seq<char>, b: Seq<char>) -> Ordering {
    segments_cmp(split_on(a, '.'), split_on(b, '.'))
}

/// Compares two version strings segment by segment.
pub fn version_cmp_str(a: &str, b: &str) -> (r: Ordering)
    ensures
        r == version_cmp(a@, b@),
{
    let av = split_str(a, '.');
    let bv = split_str(b, '.');
    let an = av.len();
    let bn = bv.len();
    let mut i: usize = 0;
    proof {
        assert(av.deep_view().skip(0) =~= av.deep_view());
        assert(bv.deep_view().skip(0) =~= bv.deep_view());
    }
    while i < an && i < bn
        invariant
            0 <= i <= an,
            0 <= i <= bn,
            an == av.len(),
            bn == bv.len(),
            av.deep_view() == split_on(a@, '.'),
            bv.deep_view() == split_on(b@, '.'),
            version_cmp(a@, b@) == segments_cmp(
                av.deep_view().skip(i as int),
                bv.deep_view().skip(i as int),
            ),
        decreases an - i,
    {
        let c = segment_cmp_str(av[i].as_str(), bv[i].as_str());
        match c {
            Ordering::Equal => {
                proof {
                    assert(av.deep_view().skip(i as int).drop_first() =~= av.deep_view().skip(
                        i + 1,
                    ));
                    assert(bv.deep_view().skip(i as int).drop_first() =~= bv.deep_view().skip(
                        i + 1,
                    ));
                }
                i += 1;
            },
            _ => {
                return c;
            },
        }
    }
    if an < bn {
        Ordering::Less
    } else if an > bn {
        Ordering::Greater
    } else {
        Ordering::Equal
    }
}

} // verus!
