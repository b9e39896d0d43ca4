//! Character-level text operations on strings, specified over `Seq<char>`.
use vstd::prelude::*;
use vstd::string::*;

verus! {

// ---------------------------------------------------------------------------
// Specifications
// ---------------------------------------------------------------------------

/// `p` occurs in `s` starting at position `i`.
pub open spec fn occurs_at(s: Seq<char>, p: Seq<char>, i: int) -> bool {
    0 <= i && i + p.len() <= s.len() && s.subrange(i, i + p.len()) == p
}

/// `s` begins with `p`.
pub open spec fn has_prefix(s: Seq<char>, p: Seq<char>) -> bool {
    occurs_at(s, p, 0)
}

/// `s` ends with `p`.
pub open spec fn has_suffix(s: Seq<char>, p: Seq<char>) -> bool {
    p.len() <= s.len() && occurs_at(s, p, s.len() - p.len())
}

/// `p` occurs somewhere in `s`.
pub open spec fn has_infix(s: Seq<char>, p: Seq<char>) -> bool {
    exists|i: int| occurs_at(s, p, i)
}

/// Position of the first occurrence of `p` in `s`, or -1.
pub open spec fn index_of(s: Seq<char>, p: Seq<char>) -> int
    decreases s.len(),
{
    if p.len() > s.len() {
        -1
    } else if s.subrange(0, p.len() as int) == p {
        0
    } else if s.len() == 0 {
        -1
    } else {
        let r = index_of(s.subrange(1, s.len() as int), p);
        if r < 0 {
            -1
        } else {
            r + 1
        }
    }
}

/// Position of the first occurrence of the character `c` in `s`, or -1.
pub open spec fn index_of_char(s: Seq<char>, c: char) -> int {
    index_of(s, seq![c])
}

/// The Unicode `White_Space` characters (the set that `char::is_whitespace` accepts).
pub open spec fn is_ws(c: char) -> bool {
    ||| ('\u{9}' <= c && c <= '\u{d}')
    ||| c == ' '
    ||| c == '\u{85}'
    ||| c == '\u{a0}'
    ||| c == '\u{1680}'
    ||| ('\u{2000}' <= c && c <= '\u{200a}')
    ||| c == '\u{2028}'
    ||| c == '\u{2029}'
    ||| c == '\u{202f}'
    ||| c == '\u{205f}'
    ||| c == '\u{3000}'
}

/// `s` without its leading white space.
pub open spec fn trim_start_spec(s: Seq<char>) -> Seq<char>
    decreases s.len(),
{
    if s.len() > 0 && is_ws(s[0]) {
        trim_start_spec(s.subrange(1, s.len() as int))
    } else {
        s
    }
}

/// `s` without its trailing white space.
pub open spec fn trim_end_spec(s: Seq<char>) -> Seq<char>
    decreases s.len(),
{
    if s.len() > 0 && is_ws(s[s.len() - 1]) {
        trim_end_spec(s.subrange(0, s.len() - 1))
    } else {
        s
    }
}

/// `s` without leading and trailing white space (`str::trim`).
pub open spec fn trim_spec(s: Seq<char>) -> Seq<char> {
    trim_end_spec(trim_start_spec(s))
}

/// Every character of `s` is white space.
pub open spec fn all_ws(s: Seq<char>) -> bool {
    forall|i: int| 0 <= i < s.len() ==> is_ws(#[trigger] s[i])
}

/// Left-to-right, non-overlapping replacement of every occurrence of `p` by `r`
/// (`str::replace`), for a non-empty `p`.
pub open spec fn replace_spec(s: Seq<char>, p: Seq<char>, r: Seq<char>) -> Seq<char>
    decreases s.len(),
{
    if p.len() == 0 {
        s
    } else {
        let i = index_of(s, p);
        if i < 0 || i + p.len() > s.len() {
            s
        } else {
            s.subrange(0, i) + r + replace_spec(s.subrange(i + p.len(), s.len() as int), p, r)
        }
    }
}

/// The pieces that `str::splitn(n, c)` yields for a character separator.
pub open spec fn splitn_spec(s: Seq<char>, c: char, n: nat) -> Seq<Seq<char>>
    decreases n,
{
    if n == 0 {
        Seq::empty()
    } else if n == 1 {
        seq![s]
    } else {
        let i = index_of_char(s, c);
        if i < 0 || i >= s.len() {
            seq![s]
        } else {
            seq![s.subrange(0, i)] + splitn_spec(s.subrange(i + 1, s.len() as int), c, (n - 1) as nat)
        }
    }
}

// ---------------------------------------------------------------------------
// Lemmas
// ---------------------------------------------------------------------------

/// The first-occurrence position is either -1 or a real, first occurrence.
pub proof fn lemma_index_of(s: Seq<char>, p: Seq<char>)
    ensures
        -1 <= index_of(s, p),
        index_of(s, p) >= 0 ==> occurs_at(s, p, index_of(s, p)),
        index_of(s, p) >= 0 ==> forall|j: int| 0 <= j < index_of(s, p) ==> !occurs_at(s, p, j),
        index_of(s, p) < 0 ==> forall|j: int| !occurs_at(s, p, j),
    decreases s.len(),
{
    if p.len() > s.len() {
    } else if s.subrange(0, p.len() as int) == p {
    } else if s.len() == 0 {
        assert(s.subrange(0, p.len() as int) =~= p);
    } else {
        let t = s.subrange(1, s.len() as int);
        lemma_index_of(t, p);
        assert forall|j: int| occurs_at(s, p, j) && j >= 1 implies occurs_at(t, p, j - 1) by {
            assert(t.subrange(j - 1, j - 1 + p.len()) =~= s.subrange(j, j + p.len()));
        }
        assert forall|j: int| occurs_at(t, p, j) implies occurs_at(s, p, j + 1) by {
            assert(t.subrange(j, j + p.len()) =~= s.subrange(j + 1, j + 1 + p.len()));
        }
    }
}

proof fn lemma_trim_start(s: Seq<char>)
    ensures
        exists|k: int|
            0 <= k <= s.len() && trim_start_spec(s) == s.subrange(k, s.len() as int) && (forall|
                i: int,
            | 0 <= i < k ==> is_ws(#[trigger] s[i])) && (k < s.len() ==> !is_ws(s[k])),
    decreases s.len(),
{
    if s.len() > 0 && is_ws(s[0]) {
        let t = s.subrange(1, s.len() as int);
        lemma_trim_start(t);
        let k = choose|k: int|
            0 <= k <= t.len() && trim_start_spec(t) == t.subrange(k, t.len() as int) && (forall|
                i: int,
            | 0 <= i < k ==> is_ws(#[trigger] t[i])) && (k < t.len() ==> !is_ws(t[k]));
        assert(t.subrange(k, t.len() as int) =~= s.subrange(k + 1, s.len() as int));
        assert forall|i: int| 0 <= i < k + 1 implies is_ws(#[trigger] s[i]) by {
            if i > 0 {
                assert(s[i] == t[i - 1]);
            }
        }
        assert(k + 1 < s.len() ==> s[k + 1] == t[k]);
    } else {
        assert(s.subrange(0, s.len() as int) =~= s);
    }
}

proof fn lemma_trim_end(s: Seq<char>)
    ensures
        exists|k: int|
            0 <= k <= s.len() && trim_end_spec(s) == s.subrange(0, k) && (forall|i: int|
                k <= i < s.len() ==> is_ws(#[trigger] s[i])) && (k > 0 ==> !is_ws(s[k - 1])),
    decreases s.len(),
{
    if s.len() > 0 && is_ws(s[s.len() - 1]) {
        let t = s.subrange(0, s.len() - 1);
        lemma_trim_end(t);
        let k = choose|k: int|
            0 <= k <= t.len() && trim_end_spec(t) == t.subrange(0, k) && (forall|i: int|
                k <= i < t.len() ==> is_ws(#[trigger] t[i])) && (k > 0 ==> !is_ws(t[k - 1]));
        assert(t.subrange(0, k) =~= s.subrange(0, k));
        assert forall|i: int| k <= i < s.len() implies is_ws(#[trigger] s[i]) by {
            if i < s.len() - 1 {
                assert(s[i] == t[i]);
            }
        }
    } else {
        assert(s.subrange(0, s.len() as int) =~= s);
    }
}

/// A string trims to nothing exactly when it is all white space.
pub proof fn lemma_trim_empty(s: Seq<char>)
    ensures
        trim_spec(s).len() == 0 <==> all_ws(s),
{
    lemma_trim_start(s);
    let k = choose|k: int|
        0 <= k <= s.len() && trim_start_spec(s) == s.subrange(k, s.len() as int) && (forall|i: int|
            0 <= i < k ==> is_ws(#[trigger] s[i])) && (k < s.len() ==> !is_ws(s[k]));
    let t = trim_start_spec(s);
    lemma_trim_end(t);
    let m = choose|m: int|
        0 <= m <= t.len() && trim_end_spec(t) == t.subrange(0, m) && (forall|i: int|
            m <= i < t.len() ==> is_ws(#[trigger] t[i])) && (m > 0 ==> !is_ws(t[m - 1]));
    if all_ws(s) {
        if k < s.len() {
            assert(is_ws(s[k]));
        }
    }
    if trim_spec(s).len() == 0 {
        assert(m == 0);
        assert forall|i: int| 0 <= i < s.len() implies is_ws(#[trigger] s[i]) by {
            if i >= k {
                assert(s[i] == t[i - k]);
            }
        }
    }
}

// ---------------------------------------------------------------------------
// Conversions
// ---------------------------------------------------------------------------

/// The characters of a string slice, in order.
pub fn chars_of(s: &str) -> (v: Vec<char>)
    ensures
        v@ == s@,
{
    let mut v: Vec<char> = Vec::new();
    for c in it: s.chars()
        invariant
            v@ == it.seq().take(it.index() as int),
    {
        v.push(c);
    }
    v
}

/// Appends one character to a string (std's `String::push`).
#[verifier::external_body]
pub(crate) fn push_char(s: &mut String, c: char)
    ensures
        final(s)@ == old(s)@.push(c),
{
    s.push(c);
}

/// Appends the characters `cs[from..to]` to a string.
pub fn push_range(s: &mut String, cs: &[char], from: usize, to: usize)
    requires
        from <= to <= cs@.len(),
    ensures
        final(s)@ == old(s)@ + cs@.subrange(from as int, to as int),
{
    let mut i: usize = from;
    while i < to
        invariant
            from <= i <= to <= cs@.len(),
            s@ == old(s)@ + cs@.subrange(from as int, i as int),
        decreases to - i,
    {
        push_char(s, cs[i]);
        i = i + 1;
        assert(cs@.subrange(from as int, i as int) =~= cs@.subrange(from as int, i - 1).push(
            cs@[i - 1],
        ));
    }
}

/// A string holding the characters `cs[from..to]`.
pub fn string_of_range(cs: &[char], from: usize, to: usize) -> (r: String)
    requires
        from <= to <= cs@.len(),
    ensures
        r@ == cs@.subrange(from as int, to as int),
{
    let mut r = String::new();
    let mut i: usize = from;
    while i < to
        invariant
            from <= i <= to <= cs@.len(),
            r@ == cs@.subrange(from as int, i as int),
        decreases to - i,
    {
        push_char(&mut r, cs[i]);
        i = i + 1;
        assert(cs@.subrange(from as int, i as int) =~= cs@.subrange(from as int, i - 1).push(
            cs@[i - 1],
        ));
    }
    r
}

/// A string holding the characters `cs`.
pub fn string_of(cs: &[char]) -> (r: String)
    ensures
        r@ == cs@,
{
    let r = string_of_range(cs, 0, cs.len());
    assert(cs@.subrange(0, cs@.len() as int) =~= cs@);
    r
}

/// An owned copy of a string slice.
pub fn owned(s: &str) -> (r: String)
    ensures
        r@ == s@,
{
    String::from_str(s)
}

/// The concatenation of two string slices.
pub fn concat2(a: &str, b: &str) -> (r: String)
    ensures
        r@ == a@ + b@,
{
    let mut r = String::from_str(a);
    r.append(b);
    r
}

/// The concatenation of three string slices.
pub fn concat3(a: &str, b: &str, c: &str) -> (r: String)
    ensures
        r@ == a@ + b@ + c@,
{
    let mut r = String::from_str(a);
    r.append(b);
    r.append(c);
    r
}

// ---------------------------------------------------------------------------
// Comparisons and searches on character sequences
// ---------------------------------------------------------------------------

/// Whether `s[at..]` begins with `p`.
pub fn occurs_at_exec(s: &[char], p: &[char], at: usize) -> (b: bool)
    requires
        at <= s@.len(),
    ensures
        b == occurs_at(s@, p@, at as int),
{
    let sl = s.len();
    if p.len() > sl - at {
        return false;
    }
    let mut i: usize = 0;
    while i < p.len()
        invariant
            sl == s@.len(),
            at + p@.len() <= s@.len(),
            i <= p@.len(),
            forall|j: int| 0 <= j < i ==> s@[at + j] == p@[j],
        decreases p@.len() - i,
    {
        if s[at + i] != p[i] {
            assert(s@.subrange(at as int, at + p@.len())[i as int] != p@[i as int]);
            return false;
        }
        i = i + 1;
    }
    assert(s@.subrange(at as int, at + p@.len()) =~= p@);
    true
}

/// Equality of two character sequences.
pub fn chars_eq(a: &[char], b: &[char]) -> (r: bool)
    ensures
        r == (a@ == b@),
{
    if a.len() != b.len() {
        return false;
    }
    let r = occurs_at_exec(a, b, 0);
    assert(a@.subrange(0, b@.len() as int) =~= a@);
    r
}

/// Equality of two string slices.
pub fn str_eq(a: &str, b: &str) -> (r: bool)
    ensures
        r == (a@ == b@),
{
    let ca = chars_of(a);
    let cb = chars_of(b);
    chars_eq(ca.as_slice(), cb.as_slice())
}

/// Whether `s` begins with `p` (`str::starts_with`).
pub fn starts_with(s: &str, p: &str) -> (b: bool)
    ensures
        b == has_prefix(s@, p@),
{
    let cs = chars_of(s);
    let cp = chars_of(p);
    occurs_at_exec(cs.as_slice(), cp.as_slice(), 0)
}

/// Whether `s` ends with `p` (`str::ends_with`).
pub fn ends_with(s: &str, p: &str) -> (b: bool)
    ensures
        b == has_suffix(s@, p@),
{
    let cs = chars_of(s);
    let cp = chars_of(p);
    if cp.len() > cs.len() {
        return false;
    }
    occurs_at_exec(cs.as_slice(), cp.as_slice(), cs.len() - cp.len())
}

/// First position at or after `from` where `p` occurs in `s`.
pub fn find_from(s: &[char], p: &[char], from: usize) -> (r: Option<usize>)
    requires
        from <= s@.len(),
    ensures
        match r {
            Some(i) => from <= i && occurs_at(s@, p@, i as int) && forall|j: int|
                from <= j < i ==> !occurs_at(s@, p@, j),
            None => forall|j: int| from <= j ==> !occurs_at(s@, p@, j),
        },
{
    let sl = s.len();
    let mut i: usize = from;
    loop
        invariant
            sl == s@.len(),
            from <= i <= s@.len(),
            forall|j: int| from <= j < i ==> !occurs_at(s@, p@, j),
        decreases s@.len() - i,
    {
        if occurs_at_exec(s, p, i) {
            return Some(i);
        }
        if i == sl {
            return None;
        }
        i = i + 1;
    }
}

/// First position where `p` occurs in `s`.
pub fn find_chars(s: &[char], p: &[char]) -> (r: Option<usize>)
    ensures
        match r {
            Some(i) => i as int == index_of(s@, p@),
            None => index_of(s@, p@) == -1,
        },
{
    proof {
        lemma_index_of(s@, p@);
    }
    let r = find_from(s, p, 0);
    r
}

/// The text before and after the first occurrence of `c` (`str::split_once`).
pub open spec fn split_once_spec(s: Seq<char>, c: char) -> Option<(Seq<char>, Seq<char>)> {
    let i = index_of_char(s, c);
    if 0 <= i < s.len() {
        Some((s.subrange(0, i), s.subrange(i + 1, s.len() as int)))
    } else {
        None
    }
}

/// Splits `s` at the first occurrence of `c` (`str::split_once`).
pub fn split_once_char(s: &str, c: char) -> (r: Option<(String, String)>)
    ensures
        match r {
            Some(pair) => split_once_spec(s@, c) == Some((pair.0@, pair.1@)),
            None => split_once_spec(s@, c) is None,
        },
{
    let cs = chars_of(s);
    let pat = vec![c];
    assert(pat@ =~= seq![c]);
    proof {
        lemma_index_of(cs@, pat@);
    }
    match find_chars(cs.as_slice(), pat.as_slice()) {
        Some(i) => {
            assert(occurs_at(cs@, pat@, i as int));
            let n = cs.len();
            assert(i + 1 <= n);
            let before = string_of_range(cs.as_slice(), 0, i);
            let after = string_of_range(cs.as_slice(), i + 1, n);
            Some((before, after))
        },
        None => None,
    }
}

/// Whether `p` occurs in `s` (`str::contains`).
pub fn contains(s: &str, p: &str) -> (b: bool)
    ensures
        b == has_infix(s@, p@),
{
    let cs = chars_of(s);
    let cp = chars_of(p);
    match find_from(cs.as_slice(), cp.as_slice(), 0) {
        Some(i) => true,
        None => {
            assert(forall|j: int| !occurs_at(cs@, cp@, j));
            false
        },
    }
}

/// Whether the character `c` occurs in `s`.
pub fn contains_char(s: &str, c: char) -> (b: bool)
    ensures
        b == s@.contains(c),
{
    let cs = chars_of(s);
    let mut i: usize = 0;
    while i < cs.len()
        invariant
            cs@ == s@,
            i <= cs@.len(),
            forall|j: int| 0 <= j < i ==> cs@[j] != c,
        decreases cs@.len() - i,
    {
        if cs[i] == c {
            return true;
        }
        i = i + 1;
    }
    false
}

// ---------------------------------------------------------------------------
// Trimming
// ---------------------------------------------------------------------------

/// Whether `c` is Unicode white space (`char::is_whitespace`).
pub fn is_whitespace(c: char) -> (b: bool)
    ensures
        b == is_ws(c),
{
    ('\u{9}' <= c && c <= '\u{d}') || c == ' ' || c == '\u{85}' || c == '\u{a0}' || c
        == '\u{1680}' || ('\u{2000}' <= c && c <= '\u{200a}') || c == '\u{2028}' || c
        == '\u{2029}' || c == '\u{202f}' || c == '\u{205f}' || c == '\u{3000}'
}

/// Whether `s` holds only white space (`s.trim().is_empty()`).
pub fn is_blank(s: &str) -> (b: bool)
    ensures
        b == all_ws(s@),
        b == (trim_spec(s@).len() == 0),
{
    proof {
        lemma_trim_empty(s@);
    }
    let cs = chars_of(s);
    let mut i: usize = 0;
    while i < cs.len()
        invariant
            cs@ == s@,
            i <= cs@.len(),
            forall|j: int| 0 <= j < i ==> is_ws(#[trigger] cs@[j]),
        decreases cs@.len() - i,
    {
        if !is_whitespace(cs[i]) {
            assert(!is_ws(s@[i as int]));
            proof {
                lemma_trim_empty(s@);
            }
            return false;
        }
        i = i + 1;
    }
    true
}

/// `s` without leading and trailing white space (`str::trim`).
pub fn trim(s: &str) -> (r: String)
    ensures
        r@ == trim_spec(s@),
{
    let cs = chars_of(s);
    let n = cs.len();
    let mut a: usize = 0;
    assert(cs@.subrange(0, n as int) =~= cs@);
    while a < n && is_whitespace(cs[a])
        invariant
            cs@ == s@,
            n == cs@.len(),
            a <= n,
            trim_start_spec(s@) == trim_start_spec(cs@.subrange(a as int, n as int)),
        decreases n - a,
    {
        assert(cs@.subrange(a + 1, n as int) =~= cs@.subrange(a as int, n as int).subrange(
            1,
            n - a,
        ));
        a = a + 1;
    }
    assert(trim_start_spec(s@) == cs@.subrange(a as int, n as int));
    let mut b: usize = n;
    while b > a && is_whitespace(cs[b - 1])
        invariant
            cs@ == s@,
            n == cs@.len(),
            a <= b <= n,
            trim_spec(s@) == trim_end_spec(cs@.subrange(a as int, b as int)),
        decreases b - a,
    {
        assert(cs@.subrange(a as int, b - 1) =~= cs@.subrange(a as int, b as int).subrange(
            0,
            b - 1 - a,
        ));
        b = b - 1;
    }
    string_of_range(cs.as_slice(), a, b)
}

// ---------------------------------------------------------------------------
// Splitting and replacing
// ---------------------------------------------------------------------------

/// One step of `splitn_spec`: the piece before the first separator, then the rest.
proof fn lemma_splitn_step(s: Seq<char>, c: char, n: nat)
    requires
        n > 1,
    ensures
        index_of_char(s, c) < 0 ==> splitn_spec(s, c, n) == seq![s],
        0 <= index_of_char(s, c) < s.len() ==> splitn_spec(s, c, n) == seq![
            s.subrange(0, index_of_char(s, c)),
        ] + splitn_spec(s.subrange(index_of_char(s, c) + 1, s.len() as int), c, (n - 1) as nat),
{
}

/// `rest` is `cs[start..]`, and the occurrences of `p` in it are those of `cs` shifted.
proof fn lemma_shifted_occurrences(cs: Seq<char>, p: Seq<char>, start: int)
    requires
        0 <= start <= cs.len(),
    ensures
        forall|j: int|
            occurs_at(cs.subrange(start, cs.len() as int), p, j) ==> occurs_at(cs, p, j + start),
        forall|j: int|
            j >= start && occurs_at(cs, p, j) ==> occurs_at(
                cs.subrange(start, cs.len() as int),
                p,
                j - start,
            ),
{
    let rest = cs.subrange(start, cs.len() as int);
    assert forall|j: int| occurs_at(rest, p, j) implies occurs_at(cs, p, j + start) by {
        assert(rest.subrange(j, j + p.len()) =~= cs.subrange(j + start, j + start + p.len()));
    }
    assert forall|j: int| j >= start && occurs_at(cs, p, j) implies occurs_at(
        rest,
        p,
        j - start,
    ) by {
        assert(rest.subrange(j - start, j - start + p.len()) =~= cs.subrange(j, j + p.len()));
    }
}

/// The pieces of `s` around the character `c`, at most `n` of them (`str::splitn`).
pub fn splitn_char(s: &str, c: char, n: usize) -> (r: Vec<String>)
    ensures
        r@.len() == splitn_spec(s@, c, n as nat).len(),
        forall|k: int| 0 <= k < r@.len() ==> #[trigger] r@[k]@ == splitn_spec(s@, c, n as nat)[k],
{
    let cs = chars_of(s);
    let len = cs.len();
    let sep = vec![c];
    let mut out: Vec<String> = Vec::new();
    if n == 0 {
        return out;
    }
    let mut start: usize = 0;
    let mut left: usize = n;
    let ghost whole = splitn_spec(s@, c, n as nat);
    assert(cs@.subrange(0, len as int) =~= cs@);
    while left > 1
        invariant
            cs@ == s@,
            len == cs@.len(),
            sep@ == seq![c],
            start <= len,
            1 <= left <= n,
            whole == splitn_spec(s@, c, n as nat),
            whole == out@.map_values(|x: String| x@) + splitn_spec(
                cs@.subrange(start as int, len as int),
                c,
                left as nat,
            ),
        decreases left,
    {
        let ghost rest = cs@.subrange(start as int, len as int);
        let ghost old_out = out@.map_values(|x: String| x@);
        proof {
            lemma_index_of(rest, seq![c]);
            lemma_shifted_occurrences(cs@, seq![c], start as int);
            lemma_splitn_step(rest, c, left as nat);
        }
        match find_from(cs.as_slice(), sep.as_slice(), start) {
            Some(i) => {
                proof {
                    assert(occurs_at(rest, seq![c], i - start));
                    assert(index_of_char(rest, c) == i - start);
                    assert(rest.subrange(0, i - start) =~= cs@.subrange(start as int, i as int));
                    assert(rest.subrange(i - start + 1, rest.len() as int) =~= cs@.subrange(
                        i + 1,
                        len as int,
                    ));
                }
                let piece = string_of_range(cs.as_slice(), start, i);
                out.push(piece);
                proof {
                    assert(out@.map_values(|x: String| x@) =~= old_out.push(piece@));
                    assert(seq![piece@] + splitn_spec(cs@.subrange(i + 1, len as int), c, (left - 1) as nat)
                        == splitn_spec(rest, c, left as nat));
                    assert(old_out.push(piece@) + splitn_spec(cs@.subrange(i + 1, len as int), c, (left - 1) as nat)
                        =~= old_out + (seq![piece@] + splitn_spec(cs@.subrange(i + 1, len as int), c, (left - 1) as nat)));
                }
                start = i + 1;
                left = left - 1;
            },
            None => {
                proof {
                    assert(index_of_char(rest, c) == -1);
                    assert(splitn_spec(rest, c, 1) == seq![rest]);
                }
                left = 1;
            },
        }
    }
    let last = string_of_range(cs.as_slice(), start, len);
    let ghost before = out@.map_values(|x: String| x@);
    out.push(last);
    proof {
        assert(splitn_spec(cs@.subrange(start as int, len as int), c, 1) == seq![last@]);
        assert(out@.map_values(|x: String| x@) =~= before.push(last@));
        assert(whole =~= out@.map_values(|x: String| x@));
        assert forall|k: int| 0 <= k < out@.len() implies #[trigger] out@[k]@ == whole[k] by {
            assert(out@.map_values(|x: String| x@)[k] == out@[k]@);
        }
    }
    out
}

/// All the pieces of `s` around the character `c` (`str::split`).
pub open spec fn split_spec(s: Seq<char>, c: char) -> Seq<Seq<char>>
    decreases s.len(),
{
    let i = index_of_char(s, c);
    if 0 <= i < s.len() {
        seq![s.subrange(0, i)] + split_spec(s.subrange(i + 1, s.len() as int), c)
    } else {
        seq![s]
    }
}

/// Splitting a piece free of the separator, the separator and a rest gives the
/// piece, then the split of the rest.
pub proof fn lemma_splitn_piece(a: Seq<char>, c: char, rest: Seq<char>, n: nat)
    requires
        n >= 2,
        !a.contains(c),
    ensures
        splitn_spec(a + seq![c] + rest, c, n) == seq![a] + splitn_spec(rest, c, (n - 1) as nat),
{
    let s = a + seq![c] + rest;
    lemma_index_of(s, seq![c]);
    assert(s.subrange(a.len() as int, a.len() + 1int) =~= seq![c]);
    let i = index_of_char(s, c);
    assert(occurs_at(s, seq![c], a.len() as int));
    if 0 <= i < a.len() {
        assert(occurs_at(s, seq![c], i));
        assert(s.subrange(i, i + 1)[0] == s[i]);
        assert(s[i] == a[i]);
        assert(a[i] == c);
        assert(a.contains(c));
    }
    assert(i == a.len());
    assert(s.subrange(0, a.len() as int) =~= a);
    assert(s.subrange(a.len() + 1int, s.len() as int) =~= rest);
}

/// A split always has at least one piece.
pub proof fn lemma_split_nonempty(s: Seq<char>, c: char)
    ensures
        split_spec(s, c).len() > 0,
    decreases s.len(),
{
    let i = index_of_char(s, c);
    if 0 <= i < s.len() {
        lemma_split_nonempty(s.subrange(i + 1, s.len() as int), c);
    }
}

/// The pieces of `s` around the character `c` (`str::split`).
pub fn split_char(s: &str, c: char) -> (r: Vec<String>)
    ensures
        texts_of(r@) == split_spec(s@, c),
{
    let cs = chars_of(s);
    let len = cs.len();
    let sep = vec![c];
    let mut out: Vec<String> = Vec::new();
    let mut start: usize = 0;
    let ghost whole = split_spec(s@, c);
    assert(cs@.subrange(0, len as int) =~= cs@);
    assert(texts_of(out@) =~= Seq::<Seq<char>>::empty());
    loop
        invariant
            cs@ == s@,
            len == cs@.len(),
            sep@ == seq![c],
            start <= len,
            whole == split_spec(s@, c),
            whole == texts_of(out@) + split_spec(cs@.subrange(start as int, len as int), c),
        decreases len - start,
    {
        let ghost rest = cs@.subrange(start as int, len as int);
        let ghost old_out = texts_of(out@);
        proof {
            lemma_index_of(rest, seq![c]);
            lemma_shifted_occurrences(cs@, seq![c], start as int);
        }
        match find_from(cs.as_slice(), sep.as_slice(), start) {
            Some(i) => {
                proof {
                    assert(occurs_at(rest, seq![c], i - start));
                    assert(index_of_char(rest, c) == i - start);
                    assert(rest.subrange(0, i - start) =~= cs@.subrange(start as int, i as int));
                    assert(rest.subrange(i - start + 1, rest.len() as int) =~= cs@.subrange(
                        i + 1,
                        len as int,
                    ));
                }
                let piece = string_of_range(cs.as_slice(), start, i);
                out.push(piece);
                proof {
                    assert(texts_of(out@) =~= old_out.push(piece@));
                    assert(old_out.push(piece@) + split_spec(cs@.subrange(i + 1, len as int), c)
                        =~= old_out + (seq![piece@] + split_spec(cs@.subrange(i + 1, len as int), c)));
                }
                start = i + 1;
            },
            None => {
                proof {
                    assert(index_of_char(rest, c) == -1);
                }
                let last = string_of_range(cs.as_slice(), start, len);
                out.push(last);
                proof {
                    assert(texts_of(out@) =~= old_out.push(last@));
                    assert(whole =~= texts_of(out@));
                }
                return out;
            },
        }
    }
}

/// The texts of a sequence of strings.
pub open spec fn texts_of(v: Seq<String>) -> Seq<Seq<char>> {
    v.map_values(|x: String| x@)
}

/// `s` with every occurrence of the non-empty `p` replaced by `r` (`str::replace`).
pub fn replace_all(s: &str, p: &str, r: &str) -> (out: String)
    requires
        p@.len() > 0,
    ensures
        out@ == replace_spec(s@, p@, r@),
{
    let cs = chars_of(s);
    let cp = chars_of(p);
    let cr = chars_of(r);
    let len = cs.len();
    let plen = cp.len();
    let mut out = String::new();
    let mut start: usize = 0;
    assert(cs@.subrange(0, len as int) =~= cs@);
    loop
        invariant
            cs@ == s@,
            cp@ == p@,
            cr@ == r@,
            len == cs@.len(),
            plen == cp@.len(),
            p@.len() > 0,
            start <= len,
            replace_spec(s@, p@, r@) == out@ + replace_spec(
                cs@.subrange(start as int, len as int),
                p@,
                r@,
            ),
        decreases len - start,
    {
        let ghost rest = cs@.subrange(start as int, len as int);
        proof {
            lemma_index_of(rest, p@);
            lemma_shifted_occurrences(cs@, p@, start as int);
        }
        match find_from(cs.as_slice(), cp.as_slice(), start) {
            Some(i) => {
                proof {
                    assert(occurs_at(rest, p@, i - start));
                    assert(index_of(rest, p@) == i - start);
                    assert(rest.subrange(0, i - start) =~= cs@.subrange(start as int, i as int));
                    assert(rest.subrange(i - start + p@.len(), rest.len() as int)
                        =~= cs@.subrange(i + p@.len(), len as int));
                }
                let ghost before = out@;
                push_range(&mut out, cs.as_slice(), start, i);
                push_range(&mut out, cr.as_slice(), 0, cr.len());
                proof {
                    assert(cr@.subrange(0, cr@.len() as int) =~= cr@);
                    assert(before + replace_spec(rest, p@, r@) =~= out@ + replace_spec(
                        cs@.subrange(i + plen, len as int),
                        p@,
                        r@,
                    ));
                }
                start = i + plen;
            },
            None => {
                proof {
                    assert(index_of(rest, p@) == -1);
                }
                push_range(&mut out, cs.as_slice(), start, len);
                return out;
            },
        }
    }
}

/// The pieces joined by `sep` (`[String]::join`).
pub open spec fn join_with(parts: Seq<Seq<char>>, sep: Seq<char>) -> Seq<char>
    decreases parts.len(),
{
    if parts.len() == 0 {
        Seq::empty()
    } else if parts.len() == 1 {
        parts[0]
    } else {
        join_with(parts.drop_last(), sep) + sep + parts.last()
    }
}

/// The strings joined by `sep` (`[String]::join`).
pub fn join_strings(v: &Vec<String>, sep: &str) -> (r: String)
    ensures
        r@ == join_with(texts_of(v@), sep@),
{
    let ghost all = texts_of(v@);
    if v.len() == 0 {
        assert(all =~= Seq::<Seq<char>>::empty());
        return String::new();
    }
    let mut out = v[0].clone();
    let mut i: usize = 1;
    assert(all.take(1) =~= seq![v@[0]@]);
    while i < v.len()
        invariant
            1 <= i <= v@.len(),
            all == texts_of(v@),
            out@ == join_with(all.take(i as int), sep@),
        decreases v@.len() - i,
    {
        assert(all.take(i as int + 1).drop_last() =~= all.take(i as int));
        assert(all.take(i as int + 1).last() == v@[i as int]@);
        let with_sep = concat2(out.as_str(), sep);
        out = concat2(with_sep.as_str(), v[i].as_str());
        i = i + 1;
    }
    assert(all.take(v@.len() as int) =~= all);
    out
}

} // verus!
