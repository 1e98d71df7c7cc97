//! Splitting texts at a separator character, as `str::split` does.
use vstd::prelude::*;

verus! {

/// The index of the first `sep` at or after `from`, or the length when there is none.
pub open spec fn next_sep(s: Seq<char>, sep: char, from: int) -> int
    decreases s.len() - from,
{
    if from >= s.len() {
        s.len() as int
    } else if s[from] == sep {
        from
    } else {
        next_sep(s, sep, from + 1)
    }
}

/// The `i`-th piece of `s[start..]` split at `sep`, if there is one.
pub open spec fn piece_from(s: Seq<char>, sep: char, start: int, i: nat) -> Option<Seq<char>>
    decreases i,
{
    let e = next_sep(s, sep, start);
    if i == 0 {
        Some(s.subrange(start, e))
    } else if e >= s.len() {
        None
    } else {
        piece_from(s, sep, e + 1, (i - 1) as nat)
    }
}

/// The `i`-th piece of `s` split at `sep` (what `s.split(sep).nth(i)` gives).
pub open spec fn piece(s: Seq<char>, sep: char, i: nat) -> Option<Seq<char>> {
    piece_from(s, sep, 0, i)
}

pub proof fn lemma_next_sep_bounds(s: Seq<char>, sep: char, from: int)
    requires
        0 <= from <= s.len(),
    ensures
        from <= next_sep(s, sep, from) <= s.len(),
        next_sep(s, sep, from) < s.len() ==> s[next_sep(s, sep, from)] == sep,
        forall|k: int| from <= k < next_sep(s, sep, from) ==> s[k] != sep,
    decreases s.len() - from,
{
    if from < s.len() && s[from] != sep {
        lemma_next_sep_bounds(s, sep, from + 1);
    }
}

/// When `s[from..e]` holds no separator and `e` ends the text or holds one,
/// the next separator from `from` is at `e`.
pub proof fn lemma_next_sep_at(s: Seq<char>, sep: char, from: int, e: int)
    requires
        0 <= from <= e <= s.len(),
        forall|k: int| from <= k < e ==> s[k] != sep,
        e == s.len() || s[e] == sep,
    ensures
        next_sep(s, sep, from) == e,
    decreases e - from,
{
    if from < e {
        lemma_next_sep_at(s, sep, from + 1, e);
    }
}

/// Finds the first `sep` in `cs` at or after `from`.
pub fn find_sep(cs: &Vec<char>, sep: char, from: usize) -> (e: usize)
    requires
        from <= cs@.len(),
    ensures
        e == next_sep(cs@, sep, from as int),
        from <= e <= cs@.len(),
{
    proof {
        lemma_next_sep_bounds(cs@, sep, from as int);
    }
    let mut i = from;
    while i < cs.len() && cs[i] != sep
        invariant
            from <= i <= cs@.len(),
            next_sep(cs@, sep, from as int) == next_sep(cs@, sep, i as int),
        decreases cs@.len() - i,
    {
        i = i + 1;
    }
    i
}

/// Finds where the `i`-th piece of `cs[start..]` split at `sep` begins and ends,
/// if there is such a piece.
pub fn find_piece(cs: &Vec<char>, sep: char, start: usize, i: usize) -> (r: Option<(usize, usize)>)
    requires
        start <= cs@.len(),
    ensures
        match r {
            Some((b, e)) => b <= e <= cs@.len() && piece_from(cs@, sep, start as int, i as nat)
                == Some(cs@.subrange(b as int, e as int)),
            None => piece_from(cs@, sep, start as int, i as nat) is None,
        },
    decreases i,
{
    let e = find_sep(cs, sep, start);
    if i == 0 {
        Some((start, e))
    } else if e >= cs.len() {
        None
    } else {
        find_piece(cs, sep, e + 1, i - 1)
    }
}

/// All pieces of `s[start..]` split at `sep`, in order (what
/// `s.split(sep).collect()` gives); there is always at least one.
pub open spec fn split_from(s: Seq<char>, sep: char, start: int) -> Seq<Seq<char>>
    decreases s.len() - start,
{
    let e = next_sep(s, sep, start);
    if start > s.len() || e >= s.len() || e < start {
        seq![s.subrange(start, s.len() as int)]
    } else {
        seq![s.subrange(start, e)] + split_from(s, sep, e + 1)
    }
}

/// The texts that a list of character vectors holds.
pub open spec fn texts_of(v: Seq<Vec<char>>) -> Seq<Seq<char>> {
    v.map_values(|t: Vec<char>| t@)
}

/// Splits `cs[start..]` at every `sep`.
pub fn split_all(cs: &Vec<char>, sep: char, start: usize) -> (r: Vec<Vec<char>>)
    requires
        start <= cs@.len(),
    ensures
        texts_of(r@) == split_from(cs@, sep, start as int),
    decreases cs@.len() - start,
{
    let e = find_sep(cs, sep, start);
    let mut piece: Vec<char> = Vec::new();
    let mut i = start;
    while i < e
        invariant
            start <= i <= e <= cs@.len(),
            piece@ == cs@.subrange(start as int, i as int),
        decreases e - i,
    {
        piece.push(cs[i]);
        i = i + 1;
        assert(piece@ =~= cs@.subrange(start as int, i as int));
    }
    let mut r: Vec<Vec<char>> = Vec::new();
    r.push(piece);
    if e >= cs.len() {
        assert(texts_of(r@) =~= seq![cs@.subrange(start as int, cs@.len() as int)]);
        r
    } else {
        let rest = split_all(cs, sep, e + 1);
        let ghost first = r@;
        let mut rest = rest;
        r.append(&mut rest);
        assert(texts_of(r@) =~= seq![cs@.subrange(start as int, e as int)] + split_from(
            cs@,
            sep,
            e + 1,
        ));
        r
    }
}

/// Whether `c` is white space, as `char::is_whitespace` says: the characters
/// with the Unicode `White_Space` property.
pub open spec fn is_ws(c: char) -> bool {
    let n = c as u32;
    (0x9 <= n && n <= 0xd) || n == 0x20 || n == 0x85 || n == 0xa0 || n == 0x1680 || (0x2000 <= n
        && n <= 0x200a) || n == 0x2028 || n == 0x2029 || n == 0x202f || n == 0x205f || n == 0x3000
}

/// Whether `c` is white space.
pub fn char_is_ws(c: char) -> (b: bool)
    ensures
        b == is_ws(c),
{
    let n = c as u32;
    (0x9 <= n && n <= 0xd) || n == 0x20 || n == 0x85 || n == 0xa0 || n == 0x1680 || (0x2000 <= n
        && n <= 0x200a) || n == 0x2028 || n == 0x2029 || n == 0x202f || n == 0x205f || n == 0x3000
}

/// The first index at or after `from` that holds no white space, or the length.
pub open spec fn ws_end(s: Seq<char>, from: int) -> int
    decreases s.len() - from,
{
    if from >= s.len() {
        s.len() as int
    } else if is_ws(s[from]) {
        ws_end(s, from + 1)
    } else {
        from
    }
}

/// The index just past the last character before `to`, and at or after `lo`,
/// that is no white space, or `lo`.
pub open spec fn ws_back(s: Seq<char>, to: int, lo: int) -> int
    decreases to - lo,
{
    if to <= lo {
        lo
    } else if is_ws(s[to - 1]) {
        ws_back(s, to - 1, lo)
    } else {
        to
    }
}

/// `s` without leading and trailing white space (what `str::trim` gives).
pub open spec fn trimmed(s: Seq<char>) -> Seq<char> {
    let b = ws_end(s, 0);
    s.subrange(b, ws_back(s, s.len() as int, b))
}

/// `s` without leading white space (what `str::trim_start` gives).
pub open spec fn trimmed_start(s: Seq<char>) -> Seq<char> {
    s.subrange(ws_end(s, 0), s.len() as int)
}

/// `cs` without leading white space.
pub fn trim_start_chars(cs: &Vec<char>) -> (r: Vec<char>)
    ensures
        r@ == trimmed_start(cs@),
{
    let n = cs.len();
    let mut b: usize = 0;
    while b < n && char_is_ws(cs[b])
        invariant
            n == cs@.len(),
            b <= n,
            ws_end(cs@, 0) == ws_end(cs@, b as int),
        decreases n - b,
    {
        b = b + 1;
    }
    let mut r: Vec<char> = Vec::new();
    let mut i = b;
    while i < n
        invariant
            b <= i <= n,
            n == cs@.len(),
            r@ == cs@.subrange(b as int, i as int),
        decreases n - i,
    {
        r.push(cs[i]);
        i = i + 1;
        assert(r@ =~= cs@.subrange(b as int, i as int));
    }
    r
}

/// `cs` without leading and trailing white space.
pub fn trim_chars(cs: &Vec<char>) -> (r: Vec<char>)
    ensures
        r@ == trimmed(cs@),
{
    let n = cs.len();
    let mut b: usize = 0;
    while b < n && char_is_ws(cs[b])
        invariant
            n == cs@.len(),
            b <= n,
            ws_end(cs@, 0) == ws_end(cs@, b as int),
        decreases n - b,
    {
        b = b + 1;
    }
    let mut e: usize = n;
    while e > b && char_is_ws(cs[e - 1])
        invariant
            n == cs@.len(),
            b <= e <= n,
            b == ws_end(cs@, 0),
            ws_back(cs@, n as int, b as int) == ws_back(cs@, e as int, b as int),
        decreases e,
    {
        e = e - 1;
    }
    let mut r: Vec<char> = Vec::new();
    let mut i = b;
    while i < e
        invariant
            b <= i <= e <= n,
            n == cs@.len(),
            r@ == cs@.subrange(b as int, i as int),
        decreases e - i,
    {
        r.push(cs[i]);
        i = i + 1;
        assert(r@ =~= cs@.subrange(b as int, i as int));
    }
    r
}

/// Calls `String::push`, which appends the character to the end of the text.
#[verifier::external_body]
fn push_char(s: &mut String, c: char)
    ensures
        final(s)@ == old(s)@.push(c),
{
    s.push(c);
}

/// The text made of the characters of `cs`.
pub fn string_of(cs: &Vec<char>) -> (s: String)
    ensures
        s@ == cs@,
{
    let mut s = String::new();
    let mut i: usize = 0;
    while i < cs.len()
        invariant
            i <= cs@.len(),
            s@ == cs@.take(i as int),
        decreases cs@.len() - i,
    {
        push_char(&mut s, cs[i]);
        assert(cs@.take(i as int + 1) =~= cs@.take(i as int).push(cs@[i as int]));
        i = i + 1;
    }
    assert(cs@.take(i as int) =~= cs@);
    s
}

/// Appends the characters of `t` to `out`.
pub fn push_all(out: &mut Vec<char>, t: &Vec<char>)
    ensures
        final(out)@ == old(out)@ + t@,
{
    let ghost start = out@;
    let mut i: usize = 0;
    while i < t.len()
        invariant
            i <= t@.len(),
            out@ == start + t@.take(i as int),
        decreases t@.len() - i,
    {
        out.push(t[i]);
        assert(t@.take(i as int + 1) =~= t@.take(i as int).push(t@[i as int]));
        i = i + 1;
    }
    assert(t@.take(i as int) =~= t@);
}

/// Whether two texts are equal.
pub fn chars_eq(a: &Vec<char>, b: &Vec<char>) -> (r: bool)
    ensures
        r == (a@ == b@),
{
    if a.len() != b.len() {
        return false;
    }
    let mut i: usize = 0;
    while i < a.len()
        invariant
            a@.len() == b@.len(),
            i <= a@.len(),
            forall|j: int| 0 <= j < i ==> a@[j] == b@[j],
        decreases a@.len() - i,
    {
        if a[i] != b[i] {
            return false;
        }
        i = i + 1;
    }
    assert(a@ =~= b@);
    true
}

} // verus!
