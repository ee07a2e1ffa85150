//! Character-level utilities shared by the note parser and the
//! configuration codec: whitespace trimming, searching, and conversions
//! between `String`/`&str` and `Vec<char>`.
use vstd::prelude::*;
use vstd::string::*;

verus! {

/// The whitespace characters that trimming removes: the Unicode
/// `White_Space` set, the same set `char::is_whitespace` accepts.
pub open spec fn is_ws(c: char) -> bool {
    let u = c as u32;
    u == 0x09 || u == 0x0A || u == 0x0B || u == 0x0C || u == 0x0D || u == 0x20 || u == 0x85
        || u == 0xA0 || u == 0x1680 || (0x2000 <= u && u <= 0x200A) || u == 0x2028 || u == 0x2029
        || u == 0x202F || u == 0x205F || u == 0x3000
}

/// `s` with its leading whitespace removed.
pub open spec fn trim_front(s: Seq<char>) -> Seq<char>
    decreases s.len(),
{
    if s.len() > 0 && is_ws(s[0]) {
        trim_front(s.skip(1))
    } else {
        s
    }
}

/// `s` with its trailing whitespace removed.
pub open spec fn trim_back(s: Seq<char>) -> Seq<char>
    decreases s.len(),
{
    if s.len() > 0 && is_ws(s[s.len() - 1]) {
        trim_back(s.take(s.len() - 1))
    } else {
        s
    }
}

/// `s` with leading and trailing whitespace removed.
pub open spec fn trim(s: Seq<char>) -> Seq<char> {
    trim_back(trim_front(s))
}

/// Whether `c` is one of the whitespace characters that trimming removes.
pub fn is_ws_char(c: char) -> (b: bool)
    ensures
        b == is_ws(c),
{
    let u = c as u32;
    u == 0x09 || u == 0x0A || u == 0x0B || u == 0x0C || u == 0x0D || u == 0x20 || u == 0x85
        || u == 0xA0 || u == 0x1680 || (0x2000 <= u && u <= 0x200A) || u == 0x2028 || u == 0x2029
        || u == 0x202F || u == 0x205F || u == 0x3000
}

/// The characters of `s`, one per element.
pub fn chars_of(s: &str) -> (v: Vec<char>)
    ensures
        v@ == s@,
{
    let n = s.unicode_len();
    let mut v: Vec<char> = Vec::new();
    let mut i: usize = 0;
    while i < n
        invariant
            n == s@.len(),
            i <= n,
            v@ == s@.take(i as int),
        decreases n - i,
    {
        v.push(s.get_char(i));
        proof {
            assert(v@ =~= s@.take(i + 1));
        }
        i += 1;
    }
    proof {
        assert(s@.take(n as int) =~= s@);
    }
    v
}

/// Relies on `String::push`: appends one character to the string.
#[verifier::external_body]
fn push_char(s: &mut String, c: char)
    ensures
        final(s)@ == old(s)@.push(c),
{
    s.push(c)
}

/// The string whose characters are exactly those of `v`.
pub fn string_of(v: &Vec<char>) -> (s: String)
    ensures
        s@ == v@,
{
    let mut s = String::new();
    let mut i: usize = 0;
    while i < v.len()
        invariant
            i <= v@.len(),
            s@ == v@.take(i as int),
        decreases v@.len() - i,
    {
        push_char(&mut s, v[i]);
        proof {
            assert(s@ =~= v@.take(i + 1));
        }
        i += 1;
    }
    proof {
        assert(v@.take(v@.len() as int) =~= v@);
    }
    s
}

/// The elements of `v` from index `a` (inclusive) to `b` (exclusive).
pub fn subvec(v: &Vec<char>, a: usize, b: usize) -> (r: Vec<char>)
    requires
        a <= b <= v@.len(),
    ensures
        r@ == v@.subrange(a as int, b as int),
{
    let mut r: Vec<char> = Vec::new();
    let mut i: usize = a;
    while i < b
        invariant
            a <= i <= b <= v@.len(),
            r@ == v@.subrange(a as int, i as int),
        decreases b - i,
    {
        r.push(v[i]);
        proof {
            assert(r@ =~= v@.subrange(a as int, i + 1));
        }
        i += 1;
    }
    r
}

/// Whether `needle` occurs contiguously somewhere in `hay`.
pub open spec fn has_substring(hay: Seq<char>, needle: Seq<char>) -> bool {
    exists|i: int|
        0 <= i && i + needle.len() <= hay.len() && #[trigger] hay.subrange(i, i + needle.len())
            == needle
}

/// `v` with leading and trailing whitespace removed.
pub fn trim_vec(v: &Vec<char>) -> (r: Vec<char>)
    ensures
        r@ == trim(v@),
{
    let n = v.len();
    proof {
        assert(v@.skip(0) =~= v@);
    }
    let mut a: usize = 0;
    while a < n && is_ws_char(v[a])
        invariant
            a <= n == v@.len(),
            trim_front(v@) == trim_front(v@.skip(a as int)),
        decreases n - a,
    {
        proof {
            assert(v@.skip(a as int).skip(1) =~= v@.skip(a + 1));
        }
        a += 1;
    }
    proof {
        assert(trim_front(v@) == v@.skip(a as int));
        assert(v@.skip(a as int) =~= v@.subrange(a as int, n as int));
    }
    let mut b: usize = n;
    while b > a && is_ws_char(v[b - 1])
        invariant
            a <= b <= n == v@.len(),
            trim_back(v@.skip(a as int)) == trim_back(v@.subrange(a as int, b as int)),
        decreases b,
    {
        proof {
            let s = v@.subrange(a as int, b as int);
            assert(s[s.len() - 1] == v@[b - 1]);
            assert(s.take(s.len() - 1) =~= v@.subrange(a as int, b - 1));
        }
        b -= 1;
    }
    proof {
        let s = v@.subrange(a as int, b as int);
        if b > a {
            assert(s[s.len() - 1] == v@[b - 1]);
        }
        assert(trim_back(s) == s);
    }
    subvec(v, a, b)
}

/// Shifts an optional index by `k`.
pub open spec fn shift_opt(o: Option<int>, k: int) -> Option<int> {
    match o {
        Option::None => Option::None,
        Option::Some(i) => Option::Some(i + k),
    }
}

/// The index of the first occurrence of `c` in `s`, if any.
pub open spec fn find_first(s: Seq<char>, c: char) -> Option<int>
    decreases s.len(),
{
    if s.len() == 0 {
        Option::None
    } else if s[0] == c {
        Option::Some(0)
    } else {
        shift_opt(find_first(s.skip(1), c), 1)
    }
}

/// The first occurrence of `c` points at `c`, and nothing before it is `c`.
pub proof fn lemma_find_first_ensures(s: Seq<char>, c: char)
    ensures
        match find_first(s, c) {
            Option::None => forall|j: int| 0 <= j < s.len() ==> s[j] != c,
            Option::Some(i) => 0 <= i < s.len() && s[i] == c && (forall|j: int|
                0 <= j < i ==> s[j] != c),
        },
    decreases s.len(),
{
    if s.len() > 0 && s[0] != c {
        lemma_find_first_ensures(s.skip(1), c);
        assert(forall|j: int| 1 <= j < s.len() ==> #[trigger] s[j] == s.skip(1)[j - 1]);
    }
}

/// The index of the first occurrence of `c` in `v`, if any.
pub fn find_char(v: &Vec<char>, c: char) -> (r: Option<usize>)
    ensures
        match r {
            Option::None => find_first(v@, c) is None,
            Option::Some(u) => find_first(v@, c) == Option::Some(u as int),
        },
{
    let n = v.len();
    proof {
        assert(v@.skip(0) =~= v@);
    }
    let mut j: usize = 0;
    while j < n
        invariant
            j <= n == v@.len(),
            find_first(v@, c) == shift_opt(find_first(v@.skip(j as int), c), j as int),
        decreases n - j,
    {
        proof {
            assert(v@.skip(j as int)[0] == v@[j as int]);
            assert(v@.skip(j as int).skip(1) =~= v@.skip(j + 1));
        }
        if v[j] == c {
            return Option::Some(j);
        }
        j += 1;
    }
    Option::None
}

/// Whether `c` is a square bracket.
pub open spec fn is_bracket(c: char) -> bool {
    c == '[' || c == ']'
}

/// `s` with every `[` and `]` removed, wherever and however often they occur.
pub open spec fn strip_brackets(s: Seq<char>) -> Seq<char>
    decreases s.len(),
{
    if s.len() == 0 {
        Seq::empty()
    } else if is_bracket(s[0]) {
        strip_brackets(s.skip(1))
    } else {
        seq![s[0]] + strip_brackets(s.skip(1))
    }
}

/// No bracket survives stripping, however many there were and wherever
/// they stood.
pub proof fn lemma_strip_brackets_bracket_free(s: Seq<char>)
    ensures
        forall|i: int| 0 <= i < strip_brackets(s).len() ==> !is_bracket(#[trigger] strip_brackets(s)[i]),
    decreases s.len(),
{
    if s.len() > 0 {
        lemma_strip_brackets_bracket_free(s.skip(1));
        assert forall|i: int| 0 <= i < strip_brackets(s).len() implies !is_bracket(
            strip_brackets(s)[i],
        ) by {
            if is_bracket(s[0]) {
                assert(strip_brackets(s) == strip_brackets(s.skip(1)));
            } else if i == 0 {
                assert(strip_brackets(s)[0] == s[0]);
            } else {
                assert(strip_brackets(s)[i] == strip_brackets(s.skip(1))[i - 1]);
            }
        }
    }
}

/// `v` with every `[` and `]` removed.
pub fn strip_brackets_vec(v: &Vec<char>) -> (r: Vec<char>)
    ensures
        r@ == strip_brackets(v@),
{
    let n = v.len();
    proof {
        assert(v@.skip(0) =~= v@);
        assert(Seq::<char>::empty() + strip_brackets(v@) =~= strip_brackets(v@));
    }
    let mut r: Vec<char> = Vec::new();
    let mut i: usize = 0;
    while i < n
        invariant
            i <= n == v@.len(),
            strip_brackets(v@) == r@ + strip_brackets(v@.skip(i as int)),
        decreases n - i,
    {
        proof {
            assert(v@.skip(i as int)[0] == v@[i as int]);
            assert(v@.skip(i as int).skip(1) =~= v@.skip(i + 1));
        }
        let c = v[i];
        if !(c == '[' || c == ']') {
            r.push(c);
            proof {
                assert((r@.drop_last() + seq![c]) + strip_brackets(v@.skip(i + 1)) =~= r@.drop_last()
                    + (seq![c] + strip_brackets(v@.skip(i + 1))));
                assert(r@.drop_last().push(c) =~= r@.drop_last() + seq![c]);
            }
        }
        i += 1;
    }
    proof {
        assert(r@ + strip_brackets(v@.skip(n as int)) =~= r@);
    }
    r
}

} // verus!
