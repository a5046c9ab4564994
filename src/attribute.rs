use vstd::prelude::*;

use crate::error::{Error, ErrorKind, Result};
use crate::text::chars_of;
use crate::types::is_digit;

verus! {

/// A character allowed in an attribute name: `A`-`Z`, `0`-`9` and `-`.
pub open spec fn is_name_char(c: char) -> bool {
    ('A' <= c && c <= 'Z') || is_digit(c) || c == '-'
}

/// The number of name characters at the start of `s`.
pub open spec fn name_run(s: Seq<char>) -> nat
    decreases s.len(),
{
    if s.len() > 0 && is_name_char(s[0]) {
        1 + name_run(s.drop_first())
    } else {
        0
    }
}

/// Scans `s` from the left for the commas that separate attributes, skipping those
/// inside double quotes. Gives the spans of the attributes closed by a comma, where
/// the open attribute starts, and whether a quoted string is open.
pub open spec fn scan(s: Seq<char>) -> (Seq<(int, int)>, int, bool)
    decreases s.len(),
{
    if s.len() == 0 {
        (Seq::empty(), 0, false)
    } else {
        let prev = scan(s.drop_last());
        let i = s.len() - 1;
        if s[i] == ',' && !prev.2 {
            (prev.0.push((prev.1, i)), i + 1, prev.2)
        } else if s[i] == '"' {
            (prev.0, prev.1, !prev.2)
        } else {
            prev
        }
    }
}

/// The spans of the attributes of the list `s`, in order; none for an empty list.
pub open spec fn field_spans(s: Seq<char>) -> Seq<(int, int)> {
    if s.len() == 0 {
        Seq::empty()
    } else {
        scan(s).0.push((scan(s).1, s.len() as int))
    }
}

/// The name and the value of one attribute `NAME=VALUE`, where the name is one or
/// more name characters and the value is not empty; `None` for any other text.
pub open spec fn pair_of(field: Seq<char>) -> Option<(Seq<char>, Seq<char>)> {
    let k = name_run(field) as int;
    if 0 < k && k + 1 < field.len() && field[k] == '=' {
        Some((field.take(k), field.skip(k + 1)))
    } else {
        None
    }
}

pub open spec fn field_text(s: Seq<char>, span: (int, int)) -> Seq<char> {
    s.subrange(span.0, span.1)
}

/// The attribute pairs of the list `s`, in order; `None` where one of its
/// attributes is malformed (a trailing comma leaves an empty one).
pub open spec fn attribute_pairs(s: Seq<char>) -> Option<Seq<(Seq<char>, Seq<char>)>> {
    let spans = field_spans(s);
    if forall|m: int| 0 <= m < spans.len() ==> (#[trigger] pair_of(field_text(s, spans[m]))) is Some {
        Some(spans.map_values(|span: (int, int)| pair_of(field_text(s, span))->Some_0))
    } else {
        None
    }
}

/// Text without commas or double quotes leaves the scan as it was.
pub proof fn lemma_scan_plain(s: Seq<char>, t: Seq<char>)
    requires
        forall|i: int| 0 <= i < t.len() ==> #[trigger] t[i] != ',' && t[i] != '"',
    ensures
        scan(s + t) == scan(s),
    decreases t.len(),
{
    if t.len() == 0 {
        assert(s + t =~= s);
    } else {
        assert((s + t).drop_last() =~= s + t.drop_last());
        assert((s + t)[(s + t).len() - 1] == t[t.len() - 1]);
        lemma_scan_plain(s, t.drop_last());
    }
}

/// A list of one attribute without commas or quotes holds that one pair.
pub proof fn lemma_one_field(a: Seq<char>)
    requires
        a.len() > 0,
        forall|i: int| 0 <= i < a.len() ==> #[trigger] a[i] != ',' && a[i] != '"',
        pair_of(a) is Some,
    ensures
        attribute_pairs(a) == Some(seq![pair_of(a)->Some_0]),
{
    lemma_scan_plain(Seq::empty(), a);
    assert(Seq::<char>::empty() + a =~= a);
    let spans = field_spans(a);
    assert(spans =~= seq![(0int, a.len() as int)]);
    assert(field_text(a, spans[0]) =~= a);
    assert(spans.map_values(|span: (int, int)| pair_of(field_text(a, span))->Some_0) =~= seq![
        pair_of(a)->Some_0,
    ]);
}

/// A list of two attributes without commas or quotes, joined by a comma, holds
/// their two pairs.
pub proof fn lemma_two_fields(a: Seq<char>, b: Seq<char>)
    requires
        a.len() > 0,
        b.len() > 0,
        forall|i: int| 0 <= i < a.len() ==> #[trigger] a[i] != ',' && a[i] != '"',
        forall|i: int| 0 <= i < b.len() ==> #[trigger] b[i] != ',' && b[i] != '"',
        pair_of(a) is Some,
        pair_of(b) is Some,
    ensures
        attribute_pairs(a.push(',') + b) == Some(seq![pair_of(a)->Some_0, pair_of(b)->Some_0]),
{
    let s = a.push(',') + b;
    lemma_scan_plain(Seq::empty(), a);
    assert(Seq::<char>::empty() + a =~= a);
    assert(a.push(',').drop_last() =~= a);
    assert(scan(a.push(',')).0 =~= seq![(0int, a.len() as int)]);
    lemma_scan_plain(a.push(','), b);
    let spans = field_spans(s);
    assert(spans =~= seq![(0int, a.len() as int), (a.len() + 1int, s.len() as int)]);
    assert(field_text(s, spans[0]) =~= a);
    assert(field_text(s, spans[1]) =~= b);
    assert(spans.map_values(|span: (int, int)| pair_of(field_text(s, span))->Some_0) =~= seq![
        pair_of(a)->Some_0,
        pair_of(b)->Some_0,
    ]);
}

pub proof fn lemma_name_run(s: Seq<char>, k: int)
    requires
        0 <= k <= s.len(),
        forall|i: int| 0 <= i < k ==> is_name_char(#[trigger] s[i]),
        k == s.len() || !is_name_char(s[k]),
    ensures
        name_run(s) == k,
    decreases k,
{
    if k > 0 {
        let t = s.drop_first();
        assert forall|i: int| 0 <= i < k - 1 implies is_name_char(#[trigger] t[i]) by {
            assert(is_name_char(s[i + 1]));
        }
        lemma_name_run(t, k - 1);
    }
}

fn is_name_char_exec(c: char) -> (r: bool)
    ensures
        r == is_name_char(c),
{
    ('A' <= c && c <= 'Z') || ('0' <= c && c <= '9') || c == '-'
}

/// The spans of the attributes of the list `cs`.
fn split_fields(cs: &Vec<char>) -> (r: Vec<(usize, usize)>)
    ensures
        r@.len() == field_spans(cs@).len(),
        forall|m: int|
            0 <= m < r@.len() ==> (#[trigger] r@[m]).0 == field_spans(cs@)[m].0 && r@[m].1
                == field_spans(cs@)[m].1,
        forall|m: int| 0 <= m < r@.len() ==> (#[trigger] r@[m]).0 <= r@[m].1 <= cs@.len(),
{
    let n = cs.len();
    let mut r: Vec<(usize, usize)> = Vec::new();
    let mut start: usize = 0;
    let mut quoted = false;
    let mut i: usize = 0;
    while i < n
        invariant
            n == cs@.len(),
            i <= n,
            start <= i,
            scan(cs@.take(i as int)).1 == start as int,
            scan(cs@.take(i as int)).2 == quoted,
            r@.len() == scan(cs@.take(i as int)).0.len(),
            forall|m: int|
                0 <= m < r@.len() ==> (#[trigger] r@[m]).0 == scan(cs@.take(i as int)).0[m].0
                    && r@[m].1 == scan(cs@.take(i as int)).0[m].1,
            forall|m: int| 0 <= m < r@.len() ==> (#[trigger] r@[m]).0 <= r@[m].1 <= i,
        decreases n - i,
    {
        assert(cs@.take(i + 1).drop_last() =~= cs@.take(i as int));
        let c = cs[i];
        if c == ',' && !quoted {
            r.push((start, i));
            start = i + 1;
        } else if c == '"' {
            quoted = !quoted;
        }
        i = i + 1;
    }
    assert(cs@.take(n as int) =~= cs@);
    if n > 0 {
        r.push((start, n));
    }
    r
}

/// Reads the attribute `NAME=VALUE` at `s[a..e]`.
fn pair_at(s: &str, cs: &Vec<char>, a: usize, e: usize) -> (r: Option<(String, String)>)
    requires
        cs@ == s@,
        a <= e <= cs@.len(),
    ensures
        match pair_of(cs@.subrange(a as int, e as int)) {
            Some(p) => r matches Some(q) && q.0@ == p.0 && q.1@ == p.1,
            None => r is None,
        },
{
    let ghost f = cs@.subrange(a as int, e as int);
    let mut k = a;
    while k < e && is_name_char_exec(cs[k])
        invariant
            a <= k <= e <= cs@.len(),
            forall|i: int| a <= i < k ==> is_name_char(#[trigger] cs@[i]),
        decreases e - k,
    {
        k = k + 1;
    }
    proof {
        assert forall|i: int| 0 <= i < k - a implies is_name_char(#[trigger] f[i]) by {
            assert(f[i] == cs@[a + i]);
        }
        lemma_name_run(f, k - a);
    }
    if k == a || e - k < 2 || cs[k] != '=' {
        return None;
    }
    let name = String::from_str(s.substring_char(a, k));
    let value = String::from_str(s.substring_char(k + 1, e));
    assert(name@ =~= f.take(k - a));
    assert(value@ =~= f.skip(k - a + 1));
    Some((name, value))
}

/// Splits an attribute list `NAME=VALUE,NAME=VALUE,...` into its pairs, in order.
/// Commas inside double quotes do not split. Fails with `InvalidInput` where an
/// attribute is malformed: no `=`, an empty or invalid name, an empty value, or an
/// empty attribute after a trailing comma. An empty list has no pairs.
pub fn parse_attribute_pairs(s: &str) -> (r: Result<Vec<(String, String)>>)
    ensures
        match r {
            Ok(v) => attribute_pairs(s@) matches Some(ps) && v@.len() == ps.len() && forall|
                m: int,
            | 0 <= m < v@.len() ==> (#[trigger] v@[m]).0@ == ps[m].0 && v@[m].1@ == ps[m].1,
            Err(e) => attribute_pairs(s@) is None && e.spec_kind() == ErrorKind::InvalidInput,
        },
{
    let cs = chars_of(s);
    let spans = split_fields(&cs);
    let ghost all = field_spans(s@);
    let mut out: Vec<(String, String)> = Vec::new();
    for m in 0..spans.len()
        invariant
            cs@ == s@,
            all == field_spans(s@),
            spans@.len() == all.len(),
            forall|j: int|
                0 <= j < spans@.len() ==> (#[trigger] spans@[j]).0 == all[j].0 && spans@[j].1
                    == all[j].1,
            forall|j: int| 0 <= j < spans@.len() ==> (#[trigger] spans@[j]).0 <= spans@[j].1 <= cs@.len(),
            out@.len() == m,
            forall|j: int|
                0 <= j < m ==> (#[trigger] pair_of(field_text(s@, all[j]))) is Some && out@[j].0@
                    == pair_of(field_text(s@, all[j]))->Some_0.0 && out@[j].1@ == pair_of(
                    field_text(s@, all[j]),
                )->Some_0.1,
    {
        let (a, e) = spans[m];
        match pair_at(s, &cs, a, e) {
            Some(p) => {
                out.push(p);
            },
            None => {
                assert(field_text(s@, all[m as int]) == cs@.subrange(a as int, e as int));
                return Err(Error::invalid_input("malformed attribute: expected NAME=VALUE"));
            },
        }
    }
    Ok(out)
}

} // verus!
