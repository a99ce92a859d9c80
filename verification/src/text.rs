//! Character-level text model: finding a delimiter, splitting on it,
//! rejoining, whitespace trimming, and breaking a text into lines.
//!
//! The specification functions here are the mathematical vocabulary that the
//! record-parser contracts are written in; the executable functions are
//! verified against them.

use vstd::prelude::*;
use vstd::string::StrSliceExecFns;
use vstd::string::StringExecFns;

verus! {

/// Index of the first occurrence of `c` in `s`, or `-1` if `c` does not occur.
pub open spec fn find_char(s: Seq<char>, c: char) -> int
    decreases s.len(),
{
    if s.len() == 0 {
        -1
    } else if s[0] == c {
        0
    } else {
        let r = find_char(s.skip(1), c);
        if r < 0 {
            -1
        } else {
            r + 1
        }
    }
}

/// `find_char` returns either `-1` (no occurrence) or the index of the
/// first occurrence.
pub proof fn lemma_find_char(s: Seq<char>, c: char)
    ensures
        -1 <= find_char(s, c) < s.len(),
        find_char(s, c) == -1 ==> forall|i: int| 0 <= i < s.len() ==> s[i] != c,
        find_char(s, c) >= 0 ==> s[find_char(s, c)] == c,
        forall|i: int| 0 <= i < find_char(s, c) ==> s[i] != c,
    decreases s.len(),
{
    if s.len() == 0 {
    } else if s[0] == c {
    } else {
        lemma_find_char(s.skip(1), c);
        let r = find_char(s.skip(1), c);
        if r == -1 {
            assert forall|i: int| 0 <= i < s.len() implies s[i] != c by {
                if i >= 1 {
                    assert(s.skip(1)[i - 1] == s[i]);
                }
            }
        } else {
            assert(s.skip(1)[r] == s[r + 1]);
            assert forall|i: int| 0 <= i < find_char(s, c) implies s[i] != c by {
                if i >= 1 {
                    assert(s.skip(1)[i - 1] == s[i]);
                }
            }
        }
    }
}

/// If `c` stands at `i` and nowhere earlier, then `i` is what `find_char`
/// returns.
pub proof fn lemma_find_char_is(s: Seq<char>, c: char, i: int)
    requires
        0 <= i < s.len(),
        s[i] == c,
        forall|j: int| 0 <= j < i ==> s[j] != c,
    ensures
        find_char(s, c) == i,
{
    lemma_find_char(s, c);
}

/// If `c` occurs nowhere in `s`, `find_char` returns `-1`.
pub proof fn lemma_find_char_none(s: Seq<char>, c: char)
    requires
        forall|j: int| 0 <= j < s.len() ==> s[j] != c,
    ensures
        find_char(s, c) == -1,
{
    lemma_find_char(s, c);
}

/// The tokens obtained by splitting `s` at every occurrence of `c`.
/// Splitting never yields an empty token list: a delimiter-free `s` is the
/// single token `[s]`, and each delimiter adds one more token.
pub open spec fn split_chars(s: Seq<char>, c: char) -> Seq<Seq<char>>
    decreases s.len(),
{
    let i = find_char(s, c);
    if 0 <= i && i < s.len() {
        seq![s.take(i)] + split_chars(s.skip(i + 1), c)
    } else {
        seq![s]
    }
}

/// Shape of `split_chars`: at least one token, and the first token is the
/// prefix up to the first delimiter.
pub proof fn lemma_split_structure(s: Seq<char>, c: char)
    ensures
        split_chars(s, c).len() >= 1,
        find_char(s, c) == -1 ==> split_chars(s, c) == seq![s],
        find_char(s, c) >= 0 ==> split_chars(s, c) == seq![s.take(find_char(s, c))]
            + split_chars(s.skip(find_char(s, c) + 1), c),
{
    lemma_find_char(s, c);
}

/// Splitting a text that starts with a delimiter-free prefix `p` followed
/// by the delimiter yields `p` as its first token.
pub proof fn lemma_split_prefix(p: Seq<char>, c: char, r: Seq<char>)
    requires
        forall|i: int| 0 <= i < p.len() ==> p[i] != c,
    ensures
        split_chars(p + seq![c] + r, c) == seq![p] + split_chars(r, c),
{
    let s = p + seq![c] + r;
    assert(s[p.len() as int] == c);
    assert forall|j: int| 0 <= j < p.len() implies s[j] != c by {
        assert(s[j] == p[j]);
    }
    lemma_find_char_is(s, c, p.len() as int);
    lemma_split_structure(s, c);
    assert(s.take(p.len() as int) =~= p);
    assert(s.skip(p.len() as int + 1) =~= r);
}

/// The tokens rejoined with the delimiter between them.
pub open spec fn join_chars(parts: Seq<Seq<char>>, c: char) -> Seq<char>
    decreases parts.len(),
{
    if parts.len() == 0 {
        Seq::empty()
    } else if parts.len() == 1 {
        parts[0]
    } else {
        parts[0] + seq![c] + join_chars(parts.skip(1), c)
    }
}

/// Splitting and rejoining with the same delimiter is lossless: no text is
/// altered by the round trip.
pub proof fn lemma_join_split(s: Seq<char>, c: char)
    ensures
        join_chars(split_chars(s, c), c) == s,
    decreases s.len(),
{
    lemma_find_char(s, c);
    lemma_split_structure(s, c);
    let i = find_char(s, c);
    if 0 <= i && i < s.len() {
        let rest = s.skip(i + 1);
        lemma_join_split(rest, c);
        lemma_split_structure(rest, c);
        let parts = split_chars(s, c);
        assert(parts.len() >= 2);
        assert(parts[0] == s.take(i));
        assert(parts.skip(1) =~= split_chars(rest, c));
        assert(s.take(i) + seq![c] + rest =~= s);
    }
}

/// The Unicode white-space characters, as `char::is_whitespace` recognises
/// them.
pub open spec fn is_ws(c: char) -> bool {
    let u = c as u32;
    (9 <= u && u <= 13) || u == 32 || u == 0x85 || u == 0xA0 || u == 0x1680 || (0x2000 <= u && u
        <= 0x200A) || u == 0x2028 || u == 0x2029 || u == 0x202F || u == 0x205F || u == 0x3000
}

/// `s` without its leading white space.
pub open spec fn trim_start_spec(s: Seq<char>) -> Seq<char>
    decreases s.len(),
{
    if s.len() == 0 {
        s
    } else if is_ws(s[0]) {
        trim_start_spec(s.skip(1))
    } else {
        s
    }
}

/// `s` without its trailing white space.
pub open spec fn trim_end_spec(s: Seq<char>) -> Seq<char>
    decreases s.len(),
{
    if s.len() == 0 {
        s
    } else if is_ws(s.last()) {
        trim_end_spec(s.drop_last())
    } else {
        s
    }
}

/// `s` without leading and trailing white space.
pub open spec fn trim_spec(s: Seq<char>) -> Seq<char> {
    trim_end_spec(trim_start_spec(s))
}

/// If everything before `a` is white space and `a` is not (or is the end),
/// trimming the start yields the suffix from `a`.
pub proof fn lemma_trim_start_at(s: Seq<char>, a: int)
    requires
        0 <= a <= s.len(),
        forall|j: int| 0 <= j < a ==> is_ws(s[j]),
        a < s.len() ==> !is_ws(s[a]),
    ensures
        trim_start_spec(s) == s.skip(a),
    decreases a,
{
    if a == 0 {
        assert(s.skip(0) =~= s);
    } else {
        assert(is_ws(s[0]));
        assert forall|j: int| 0 <= j < a - 1 implies is_ws(s.skip(1)[j]) by {
            assert(s.skip(1)[j] == s[j + 1]);
        }
        assert(a - 1 < s.skip(1).len() ==> !is_ws(s.skip(1)[a - 1]));
        lemma_trim_start_at(s.skip(1), a - 1);
        assert(s.skip(1).skip(a - 1) =~= s.skip(a));
    }
}

/// If everything from `b` on is white space and `b - 1` is not (or `b` is
/// zero), trimming the end yields the prefix up to `b`.
pub proof fn lemma_trim_end_at(s: Seq<char>, b: int)
    requires
        0 <= b <= s.len(),
        forall|j: int| b <= j < s.len() ==> is_ws(s[j]),
        b > 0 ==> !is_ws(s[b - 1]),
    ensures
        trim_end_spec(s) == s.take(b),
    decreases s.len(),
{
    if b == s.len() {
        assert(s.take(b) =~= s);
    } else {
        assert(is_ws(s.last()));
        assert forall|j: int| b <= j < s.drop_last().len() implies is_ws(s.drop_last()[j]) by {
            assert(s.drop_last()[j] == s[j]);
        }
        lemma_trim_end_at(s.drop_last(), b);
        assert(s.drop_last().take(b) =~= s.take(b));
    }
}

/// A line with its one trailing carriage return removed, if it has one.
pub open spec fn strip_cr(l: Seq<char>) -> Seq<char> {
    if l.len() > 0 && l.last() == '\r' {
        l.drop_last()
    } else {
        l
    }
}

/// The lines of `s`, as `str::lines` yields them: separated at every
/// newline, a `\r` before a separating newline removed, and a final newline
/// terminating the text rather than opening one more empty line.
pub open spec fn lines_spec(s: Seq<char>) -> Seq<Seq<char>> {
    if s.len() == 0 {
        Seq::empty()
    } else {
        let parts = split_chars(s, '\n');
        if s.last() == '\n' {
            parts.drop_last().map_values(|l: Seq<char>| strip_cr(l))
        } else {
            parts.drop_last().map_values(|l: Seq<char>| strip_cr(l)).push(parts.last())
        }
    }
}

/// Peeling the first line off a text that still contains a newline.
pub proof fn lemma_lines_step(r: Seq<char>)
    requires
        find_char(r, '\n') >= 0,
    ensures
        lines_spec(r) == seq![strip_cr(r.take(find_char(r, '\n')))] + lines_spec(
            r.skip(find_char(r, '\n') + 1),
        ),
{
    lemma_find_char(r, '\n');
    lemma_split_structure(r, '\n');
    let i = find_char(r, '\n');
    let rest = r.skip(i + 1);
    let parts = split_chars(r, '\n');
    let q = split_chars(rest, '\n');
    lemma_split_structure(rest, '\n');
    assert(parts == seq![r.take(i)] + q);
    if i + 1 == r.len() {
        assert(rest =~= Seq::<char>::empty());
        assert(r.last() == '\n');
        assert(q == seq![rest]);
        assert(parts.drop_last() =~= seq![r.take(i)]);
        assert(parts.drop_last().map_values(|l: Seq<char>| strip_cr(l)) =~= seq![
            strip_cr(r.take(i)),
        ]);
        assert(lines_spec(rest) =~= Seq::<Seq<char>>::empty());
        assert(lines_spec(r) =~= seq![strip_cr(r.take(i))] + lines_spec(rest));
    } else {
        assert(rest.len() > 0);
        assert(rest[rest.len() - 1] == r[r.len() - 1]);
        assert(r.last() == rest.last());
        assert(parts.drop_last() =~= seq![r.take(i)] + q.drop_last());
        assert(parts.drop_last().map_values(|l: Seq<char>| strip_cr(l)) =~= seq![
            strip_cr(r.take(i)),
        ] + q.drop_last().map_values(|l: Seq<char>| strip_cr(l)));
        if r.last() == '\n' {
            assert(lines_spec(r) =~= seq![strip_cr(r.take(i))] + lines_spec(rest));
        } else {
            assert(parts.last() == q.last());
            assert(parts.drop_last().map_values(|l: Seq<char>| strip_cr(l)).push(parts.last())
                =~= (seq![strip_cr(r.take(i))] + q.drop_last().map_values(
                |l: Seq<char>| strip_cr(l),
            ).push(q.last())));
            assert(lines_spec(r) =~= seq![strip_cr(r.take(i))] + lines_spec(rest));
        }
    }
}

/// A text without a newline is a single line (or none, when empty), kept
/// as it stands.
pub proof fn lemma_lines_no_newline(r: Seq<char>)
    requires
        find_char(r, '\n') == -1,
    ensures
        r.len() == 0 ==> lines_spec(r) == Seq::<Seq<char>>::empty(),
        r.len() > 0 ==> lines_spec(r) == seq![r],
{
    lemma_find_char(r, '\n');
    lemma_split_structure(r, '\n');
    if r.len() > 0 {
        let parts = split_chars(r, '\n');
        assert(parts == seq![r]);
        assert(r.last() != '\n');
        assert(parts.drop_last() =~= Seq::<Seq<char>>::empty());
        assert(parts.drop_last().map_values(|l: Seq<char>| strip_cr(l))
            =~= Seq::<Seq<char>>::empty());
        assert(lines_spec(r) =~= seq![r]);
    }
}

/// Index of the first occurrence of `c` in `s`, scanning left to right.
pub fn find_first(s: &str, c: char) -> (r: Option<usize>)
    ensures
        match r {
            Some(i) => find_char(s@, c) == i && i < s@.len(),
            None => find_char(s@, c) == -1,
        },
{
    let n = s.unicode_len();
    let mut i: usize = 0;
    while i < n
        invariant
            i <= n,
            n == s@.len(),
            forall|j: int| 0 <= j < i ==> s@[j] != c,
        decreases n - i,
    {
        if s.get_char(i) == c {
            proof {
                lemma_find_char_is(s@, c, i as int);
            }
            return Some(i);
        }
        i += 1;
    }
    proof {
        lemma_find_char_none(s@, c);
    }
    None
}

/// Whether `c` is a white-space character.
pub fn is_ws_char(c: char) -> (b: bool)
    ensures
        b == is_ws(c),
{
    let u = c as u32;
    (9 <= u && u <= 13) || u == 32 || u == 0x85 || u == 0xA0 || u == 0x1680 || (0x2000 <= u && u
        <= 0x200A) || u == 0x2028 || u == 0x2029 || u == 0x202F || u == 0x205F || u == 0x3000
}

/// `s` with leading and trailing white space removed.
pub fn trim_str(s: &str) -> (r: String)
    ensures
        r@ == trim_spec(s@),
{
    let n = s.unicode_len();
    let mut a: usize = 0;
    while a < n && is_ws_char(s.get_char(a))
        invariant
            a <= n,
            n == s@.len(),
            forall|j: int| 0 <= j < a ==> is_ws(s@[j]),
        decreases n - a,
    {
        a += 1;
    }
    if a == n {
        proof {
            lemma_trim_start_at(s@, a as int);
            assert(s@.skip(a as int) =~= Seq::<char>::empty());
        }
        return String::new();
    }
    let mut b: usize = n;
    while b > a && is_ws_char(s.get_char(b - 1))
        invariant
            a <= b <= n,
            n == s@.len(),
            a < n,
            !is_ws(s@[a as int]),
            forall|j: int| b <= j < n ==> is_ws(s@[j]),
        decreases b,
    {
        b -= 1;
    }
    proof {
        if b == a {
            assert(is_ws(s@[a as int]));
            assert(false);
        }
        lemma_trim_start_at(s@, a as int);
        let suf = s@.skip(a as int);
        assert forall|j: int| b - a <= j < suf.len() implies is_ws(suf[j]) by {
            assert(suf[j] == s@[j + a]);
        }
        assert(suf[b - a - 1] == s@[b - 1]);
        lemma_trim_end_at(suf, b - a);
        assert(suf.take(b - a) =~= s@.subrange(a as int, b as int));
    }
    let t = s.substring_char(a, b);
    String::from_str(t)
}

/// The lines of `s`, as `lines_spec` describes them.
pub fn split_lines(s: &str) -> (r: Vec<String>)
    ensures
        r.deep_view() == lines_spec(s@),
{
    let mut out: Vec<String> = Vec::new();
    let mut rem: &str = s;
    loop
        invariant
            lines_spec(s@) == out.deep_view() + lines_spec(rem@),
        ensures
            lines_spec(s@) == out.deep_view() + lines_spec(rem@),
            find_char(rem@, '\n') == -1,
        decreases rem@.len(),
    {
        match find_first(rem, '\n') {
            None => {
                break ;
            },
            Some(i) => {
                proof {
                    lemma_find_char(rem@, '\n');
                }
                let ghost rem0 = rem@;
                let ghost out0 = out.deep_view();
                let line_s: &str = if i > 0 && rem.get_char(i - 1) == '\r' {
                    rem.substring_char(0, i - 1)
                } else {
                    rem.substring_char(0, i)
                };
                proof {
                    if i > 0 && rem0[i as int - 1] == '\r' {
                        assert(rem0.take(i as int).last() == rem0[i as int - 1]);
                        assert(rem0.subrange(0, i as int - 1) =~= rem0.take(i as int).drop_last());
                        assert(line_s@ =~= strip_cr(rem0.take(i as int)));
                    } else {
                        if i > 0 {
                            assert(rem0.take(i as int).last() == rem0[i as int - 1]);
                        }
                        assert(rem0.subrange(0, i as int) =~= rem0.take(i as int));
                        assert(line_s@ =~= strip_cr(rem0.take(i as int)));
                    }
                }
                out.push(String::from_str(line_s));
                let n_rem = rem.unicode_len();
                rem = rem.substring_char(i + 1, n_rem);
                proof {
                    assert(rem@ =~= rem0.skip(i as int + 1));
                    lemma_lines_step(rem0);
                    assert(out.deep_view() =~= out0.push(strip_cr(rem0.take(i as int))));
                    assert(out0.push(strip_cr(rem0.take(i as int))) + lines_spec(rem@) =~= out0 + (
                    seq![strip_cr(rem0.take(i as int))] + lines_spec(rem@)));
                }
            },
        }
    }
    if rem.unicode_len() > 0 {
        proof {
            lemma_lines_no_newline(rem@);
        }
        let ghost out0 = out.deep_view();
        out.push(String::from_str(rem));
        proof {
            assert(out.deep_view() =~= out0.push(rem@));
            assert(out0.push(rem@) =~= out0 + seq![rem@]);
            assert(out.deep_view() =~= lines_spec(s@));
        }
    } else {
        proof {
            lemma_lines_no_newline(rem@);
            assert(out.deep_view() + Seq::<Seq<char>>::empty() =~= out.deep_view());
        }
    }
    out
}

} // verus!
