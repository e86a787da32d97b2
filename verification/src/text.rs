//! Character-level helpers shared by the parsers: UTF-8 decoding and
//! building strings one character at a time.
use vstd::prelude::*;

verus! {

/// Decodes `bytes` as UTF-8 with `std::str::from_utf8`.
///
/// Trusted: std documents that `from_utf8` succeeds exactly on valid UTF-8,
/// and then the string's characters are the decoded bytes.
#[verifier::external_body]
pub fn str_from_utf8(bytes: &[u8]) -> (res: Option<&str>)
    ensures
        res is Some <==> vstd::utf8::valid_utf8(bytes@),
        res matches Some(s) ==> s@ == vstd::utf8::decode_utf8(bytes@),
{
    std::str::from_utf8(bytes).ok()
}

/// Appends one character to `s` with `String::push`.
///
/// Trusted: std documents that `push` appends the character at the end.
#[verifier::external_body]
pub fn push_char(s: &mut String, c: char)
    ensures
        final(s)@ == old(s)@.push(c),
{
    s.push(c)
}

/// Compares a `String` with a string slice with `==`.
///
/// Trusted: std documents string equality as equality of contents, and the
/// comparison does not panic.
#[verifier::external_body]
pub fn string_is(a: &String, b: &str) -> (res: bool)
    ensures
        res == (a@ == b@),
    no_unwind
{
    a == b
}

/// Whether `a` and `b` hold the same characters, compared byte by byte:
/// UTF-8 encodes different character sequences to different bytes.
pub fn str_eq(a: &str, b: &str) -> (res: bool)
    ensures
        res == (a@ == b@),
{
    let x = a.as_bytes();
    let y = b.as_bytes();
    proof {
        vstd::utf8::encode_utf8_decode_utf8(a@);
        vstd::utf8::encode_utf8_decode_utf8(b@);
    }
    if x.len() != y.len() {
        return false;
    }
    let mut i: usize = 0;
    while i < x.len()
        invariant
            i <= x@.len(),
            x@.len() == y@.len(),
            forall|j: int| 0 <= j < i ==> x@[j] == y@[j],
            a@ == b@ ==> x@ == y@,
        decreases x@.len() - i,
    {
        if x[i] != y[i] {
            return false;
        }
        i = i + 1;
    }
    assert(x@ =~= y@);
    true
}

/// The characters of `s`.
pub fn chars_of(s: &str) -> (res: Vec<char>)
    ensures
        res@ == s@,
{
    let mut out: Vec<char> = Vec::new();
    for c in it: s.chars()
        invariant
            out@ == it.seq().take(it.index() as int),
    {
        out.push(c);
    }
    out
}

/// The characters of `s` before its first `c` (all of `s` without one).
pub open spec fn before_first(s: Seq<char>, c: char) -> Seq<char>
    decreases s.len(),
{
    if s.len() == 0 {
        s
    } else if s[0] == c {
        Seq::empty()
    } else {
        seq![s[0]] + before_first(s.drop_first(), c)
    }
}

/// The characters of `s` after its first `c`, if it has one.
pub open spec fn after_first(s: Seq<char>, c: char) -> Option<Seq<char>>
    decreases s.len(),
{
    if s.len() == 0 {
        None
    } else if s[0] == c {
        Some(s.drop_first())
    } else {
        after_first(s.drop_first(), c)
    }
}

/// The pieces of `s` between the occurrences of `sep`, where the piece
/// being read so far is `cur`.
pub open spec fn split_from(s: Seq<char>, sep: char, cur: Seq<char>) -> Seq<Seq<char>>
    decreases s.len(),
{
    if s.len() == 0 {
        seq![cur]
    } else if s[0] == sep {
        seq![cur] + split_from(s.drop_first(), sep, Seq::empty())
    } else {
        split_from(s.drop_first(), sep, cur.push(s[0]))
    }
}

/// The pieces of `s` between the occurrences of `sep`, as `str::split`
/// gives them: one more piece than there are separators.
pub open spec fn split_on(s: Seq<char>, sep: char) -> Seq<Seq<char>> {
    split_from(s, sep, Seq::empty())
}

/// Whether `c` has the Unicode `White_Space` property, as
/// `char::is_whitespace` documents.
pub open spec fn is_whitespace(c: char) -> bool {
    let v = c as u32;
    ||| 0x09 <= v <= 0x0d
    ||| v == 0x20
    ||| v == 0x85
    ||| v == 0xa0
    ||| v == 0x1680
    ||| 0x2000 <= v <= 0x200a
    ||| v == 0x2028
    ||| v == 0x2029
    ||| v == 0x202f
    ||| v == 0x205f
    ||| v == 0x3000
}

/// `cur` as a list of one token, or no token when it is empty.
pub open spec fn token_if_any(cur: Seq<char>) -> Seq<Seq<char>> {
    if cur.len() == 0 {
        Seq::empty()
    } else {
        seq![cur]
    }
}

/// The non-empty runs of non-whitespace characters of `s`, where the run
/// being read so far is `cur`, as `str::split_whitespace` gives them.
pub open spec fn tokens_from(s: Seq<char>, cur: Seq<char>) -> Seq<Seq<char>>
    decreases s.len(),
{
    if s.len() == 0 {
        token_if_any(cur)
    } else if is_whitespace(s[0]) {
        token_if_any(cur) + tokens_from(s.drop_first(), Seq::empty())
    } else {
        tokens_from(s.drop_first(), cur.push(s[0]))
    }
}

/// The first line of `s` as `str::lines` gives it: the characters before the
/// first line feed, without a carriage return that ends them when a line
/// feed follows; none for an empty `s`.
pub open spec fn first_line(s: Seq<char>) -> Option<Seq<char>> {
    if s.len() == 0 {
        None
    } else {
        let l = before_first(s, '\n');
        if after_first(s, '\n') is Some && l.len() > 0 && l.last() == '\r' {
            Some(l.drop_last())
        } else {
            Some(l)
        }
    }
}

/// Whether `c` is whitespace, as `char::is_whitespace` tells.
pub fn is_whitespace_char(c: char) -> (res: bool)
    ensures
        res == is_whitespace(c),
{
    let v = c as u32;
    (0x09 <= v && v <= 0x0d) || v == 0x20 || v == 0x85 || v == 0xa0 || v == 0x1680
        || (0x2000 <= v && v <= 0x200a) || v == 0x2028 || v == 0x2029 || v == 0x202f
        || v == 0x205f || v == 0x3000
}

/// The characters of `s` before its first `c`, and those after it if any.
pub fn split_once_at(s: &[char], c: char) -> (res: (Vec<char>, Option<Vec<char>>))
    ensures
        res.0@ == before_first(s@, c),
        match after_first(s@, c) {
            Some(r) => res.1 matches Some(v) && v@ == r,
            None => res.1 is None,
        },
{
    let mut head: Vec<char> = Vec::new();
    let mut i: usize = 0;
    assert(s@.skip(0) =~= s@);
    assert(head@ + before_first(s@, c) =~= before_first(s@, c));
    while i < s.len()
        invariant
            i <= s@.len(),
            before_first(s@, c) == head@ + before_first(s@.skip(i as int), c),
            after_first(s@, c) == after_first(s@.skip(i as int), c),
        decreases s@.len() - i,
    {
        let ghost rest = s@.skip(i as int);
        assert(rest.drop_first() =~= s@.skip(i + 1));
        if s[i] == c {
            let mut tail: Vec<char> = Vec::new();
            let mut j: usize = i + 1;
            while j < s.len()
                invariant
                    i + 1 <= j <= s@.len(),
                    tail@ == s@.subrange(i + 1, j as int),
                decreases s@.len() - j,
            {
                tail.push(s[j]);
                j = j + 1;
            }
            assert(head@ + Seq::<char>::empty() =~= head@);
            assert(tail@ =~= rest.drop_first());
            return (head, Some(tail));
        }
        let ghost h = head@;
        head.push(s[i]);
        assert(h + (seq![rest[0]] + before_first(rest.drop_first(), c)) =~= head@ + before_first(rest.drop_first(), c));
        i = i + 1;
    }
    assert(s@.skip(i as int) =~= Seq::<char>::empty());
    assert(head@ + Seq::<char>::empty() =~= head@);
    (head, None)
}

/// The pieces of `s` between the occurrences of `sep`.
pub fn split_chars(s: &[char], sep: char) -> (res: Vec<Vec<char>>)
    ensures
        res@.map_values(|v: Vec<char>| v@) == split_on(s@, sep),
{
    let mut pieces: Vec<Vec<char>> = Vec::new();
    let mut cur: Vec<char> = Vec::new();
    let mut i: usize = 0;
    assert(s@.skip(0) =~= s@);
    assert(pieces@.map_values(|v: Vec<char>| v@) + split_from(s@, sep, cur@) =~= split_from(s@, sep, cur@));
    assert(cur@ =~= Seq::<char>::empty());
    while i < s.len()
        invariant
            i <= s@.len(),
            split_on(s@, sep) == pieces@.map_values(|v: Vec<char>| v@) + split_from(s@.skip(i as int), sep, cur@),
        decreases s@.len() - i,
    {
        let ghost rest = s@.skip(i as int);
        assert(rest.drop_first() =~= s@.skip(i + 1));
        let ghost before = pieces@.map_values(|v: Vec<char>| v@);
        if s[i] == sep {
            let ghost done = cur@;
            pieces.push(cur);
            cur = Vec::new();
            assert(pieces@.map_values(|v: Vec<char>| v@) =~= before.push(done));
            assert(before + (seq![done] + split_from(rest.drop_first(), sep, Seq::empty()))
                =~= before.push(done) + split_from(rest.drop_first(), sep, Seq::empty()));
        } else {
            cur.push(s[i]);
        }
        i = i + 1;
    }
    assert(s@.skip(i as int) =~= Seq::<char>::empty());
    let ghost before = pieces@.map_values(|v: Vec<char>| v@);
    let ghost last = cur@;
    pieces.push(cur);
    assert(pieces@.map_values(|v: Vec<char>| v@) =~= before + seq![last]);
    pieces
}

/// The whitespace-separated tokens of `s`.
pub fn whitespace_tokens(s: &[char]) -> (res: Vec<Vec<char>>)
    ensures
        res@.map_values(|v: Vec<char>| v@) == tokens_from(s@, Seq::empty()),
{
    let mut tokens: Vec<Vec<char>> = Vec::new();
    let mut cur: Vec<char> = Vec::new();
    let mut i: usize = 0;
    assert(s@.skip(0) =~= s@);
    assert(tokens@.map_values(|v: Vec<char>| v@) + tokens_from(s@, cur@) =~= tokens_from(s@, cur@));
    assert(cur@ =~= Seq::<char>::empty());
    while i < s.len()
        invariant
            i <= s@.len(),
            tokens_from(s@, Seq::empty()) == tokens@.map_values(|v: Vec<char>| v@) + tokens_from(s@.skip(i as int), cur@),
        decreases s@.len() - i,
    {
        let ghost rest = s@.skip(i as int);
        assert(rest.drop_first() =~= s@.skip(i + 1));
        let ghost before = tokens@.map_values(|v: Vec<char>| v@);
        if is_whitespace_char(s[i]) {
            let ghost done = cur@;
            if cur.len() > 0 {
                tokens.push(cur);
                assert(tokens@.map_values(|v: Vec<char>| v@) =~= before + token_if_any(done));
            } else {
                assert(before + token_if_any(done) =~= before);
            }
            cur = Vec::new();
            assert(before + (token_if_any(done) + tokens_from(rest.drop_first(), Seq::empty()))
                =~= (before + token_if_any(done)) + tokens_from(rest.drop_first(), Seq::empty()));
        } else {
            cur.push(s[i]);
        }
        i = i + 1;
    }
    assert(s@.skip(i as int) =~= Seq::<char>::empty());
    let ghost before = tokens@.map_values(|v: Vec<char>| v@);
    let ghost last = cur@;
    if cur.len() > 0 {
        tokens.push(cur);
        assert(tokens@.map_values(|v: Vec<char>| v@) =~= before + token_if_any(last));
    } else {
        assert(before + token_if_any(last) =~= before);
    }
    tokens
}

/// The first line of `s`, as `str::lines` gives it.
pub fn first_line_of(s: &[char]) -> (res: Option<Vec<char>>)
    ensures
        match first_line(s@) {
            Some(l) => res matches Some(v) && v@ == l,
            None => res is None,
        },
{
    if s.len() == 0 {
        return None;
    }
    let (mut line, rest) = split_once_at(s, '\n');
    if rest.is_some() && line.len() > 0 && line[line.len() - 1] == '\r' {
        line.pop();
    }
    Some(line)
}

/// A string holding the characters `cs`.
pub fn string_of(cs: &[char]) -> (res: String)
    ensures
        res@ == cs@,
{
    let mut out = String::new();
    let mut i: usize = 0;
    while i < cs.len()
        invariant
            i <= cs@.len(),
            out@ == cs@.take(i as int),
        decreases cs@.len() - i,
    {
        push_char(&mut out, cs[i]);
        assert(cs@.take(i + 1) =~= cs@.take(i as int).push(cs[i as int]));
        i = i + 1;
    }
    assert(cs@.take(cs@.len() as int) =~= cs@);
    out
}

/// The decimal digit character for `d` (below ten).
pub open spec fn digit_char(d: nat) -> char {
    ((d + 48) as u8) as char
}

/// The decimal representation of `n`, without leading zeros.
pub open spec fn decimal(n: nat) -> Seq<char>
    decreases n,
{
    if n < 10 {
        seq![digit_char(n)]
    } else {
        decimal(n / 10).push(digit_char(n % 10))
    }
}

/// Appends the decimal representation of `n` to `s`.
pub fn push_decimal(s: &mut String, n: u64)
    ensures
        final(s)@ == old(s)@ + decimal(n as nat),
    decreases n,
{
    if n >= 10 {
        push_decimal(s, n / 10);
    }
    let d = (n % 10) as u8;
    push_char(s, (d + 48) as char);
    proof {
        assert(final(s)@ =~= old(s)@ + decimal(n as nat));
    }
}

/// Whether `t` occurs in `s` at position `i`.
pub open spec fn occurs_at(s: Seq<char>, t: Seq<char>, i: int) -> bool {
    0 <= i && i + t.len() <= s.len() && s.subrange(i, i + t.len()) == t
}

/// Whether `t` occurs in `s`, as `str::contains` tells.
pub open spec fn contains_text(s: Seq<char>, t: Seq<char>) -> bool {
    exists|i: int| occurs_at(s, t, i)
}

/// Whether `t` occurs in `s`.
pub fn contains_chars(s: &[char], t: &[char]) -> (res: bool)
    ensures
        res == contains_text(s@, t@),
{
    if t.len() > s.len() {
        proof {
            assert forall|i: int| !occurs_at(s@, t@, i) by {}
        }
        return false;
    }
    let last = s.len() - t.len();
    let mut i: usize = 0;
    while i <= last
        invariant
            last == s@.len() - t@.len(),
            i <= last + 1,
            forall|j: int| 0 <= j < i ==> !occurs_at(s@, t@, j),
        decreases last + 1 - i,
    {
        let mut k: usize = 0;
        let mut same = true;
        while k < t.len()
            invariant
                k <= t@.len(),
                i + t@.len() <= s@.len(),
                same == forall|m: int| 0 <= m < k ==> s@[i + m] == t@[m],
            decreases t@.len() - k,
        {
            assert(i + k < s.len());
            if s[i + k] != t[k] {
                same = false;
            }
            k = k + 1;
        }
        if same {
            assert(s@.subrange(i as int, i + t@.len()) =~= t@);
            assert(occurs_at(s@, t@, i as int));
            return true;
        }
        assert(!(s@.subrange(i as int, i + t@.len()) =~= t@));
        if i == last {
            proof {
                assert forall|j: int| !occurs_at(s@, t@, j) by {
                    if 0 <= j <= last {
                        if j < i {} else { assert(j == i); }
                    }
                }
            }
            return false;
        }
        i = i + 1;
    }
    false
}

/// `s` without its prefix `p`, when it starts with it, as
/// `str::strip_prefix` gives it.
pub open spec fn strip_prefix_of(s: Seq<char>, p: Seq<char>) -> Option<Seq<char>> {
    if p.len() <= s.len() && s.take(p.len() as int) == p {
        Some(s.skip(p.len() as int))
    } else {
        None
    }
}

/// `s` without its prefix `p`, when it starts with it.
pub fn strip_prefix_chars(s: &[char], p: &[char]) -> (res: Option<Vec<char>>)
    ensures
        match strip_prefix_of(s@, p@) {
            Some(r) => res matches Some(v) && v@ == r,
            None => res is None,
        },
{
    if p.len() > s.len() {
        return None;
    }
    let mut k: usize = 0;
    while k < p.len()
        invariant
            k <= p@.len(),
            p@.len() <= s@.len(),
            forall|m: int| 0 <= m < k ==> s@[m] == p@[m],
        decreases p@.len() - k,
    {
        if s[k] != p[k] {
            assert(s@.take(p@.len() as int)[k as int] != p@[k as int]);
            return None;
        }
        k = k + 1;
    }
    assert(s@.take(p@.len() as int) =~= p@);
    let mut rest: Vec<char> = Vec::new();
    let mut j: usize = p.len();
    while j < s.len()
        invariant
            p@.len() <= j <= s@.len(),
            rest@ == s@.subrange(p@.len() as int, j as int),
        decreases s@.len() - j,
    {
        rest.push(s[j]);
        j = j + 1;
    }
    assert(rest@ =~= s@.skip(p@.len() as int));
    Some(rest)
}

} // verus!
