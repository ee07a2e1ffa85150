//! The configuration codec: the single-field JSON object
//! `{"file_path": "..."}` that locates the user's note file, serialized and
//! parsed as text, plus the fixed location of that object under the user's
//! home directory.
use vstd::prelude::*;
use vstd::string::*;
use crate::text::{chars_of, is_ws, is_ws_char, string_of, trim_front};

verus! {

/// The lowercase hexadecimal digit for `n`.
pub open spec fn hex_digit(n: int) -> char {
    if n == 0 {
        '0'
    } else if n == 1 {
        '1'
    } else if n == 2 {
        '2'
    } else if n == 3 {
        '3'
    } else if n == 4 {
        '4'
    } else if n == 5 {
        '5'
    } else if n == 6 {
        '6'
    } else if n == 7 {
        '7'
    } else if n == 8 {
        '8'
    } else if n == 9 {
        '9'
    } else if n == 10 {
        'a'
    } else if n == 11 {
        'b'
    } else if n == 12 {
        'c'
    } else if n == 13 {
        'd'
    } else if n == 14 {
        'e'
    } else {
        'f'
    }
}

/// The value of a hexadecimal digit, either case, or -1 for any other
/// character.
pub open spec fn hex_val(c: char) -> int {
    if c == '0' {
        0
    } else if c == '1' {
        1
    } else if c == '2' {
        2
    } else if c == '3' {
        3
    } else if c == '4' {
        4
    } else if c == '5' {
        5
    } else if c == '6' {
        6
    } else if c == '7' {
        7
    } else if c == '8' {
        8
    } else if c == '9' {
        9
    } else if c == 'a' || c == 'A' {
        10
    } else if c == 'b' || c == 'B' {
        11
    } else if c == 'c' || c == 'C' {
        12
    } else if c == 'd' || c == 'D' {
        13
    } else if c == 'e' || c == 'E' {
        14
    } else if c == 'f' || c == 'F' {
        15
    } else {
        -1
    }
}

/// Encoding a digit and reading it back is the identity.
proof fn lemma_hex_round_trip(n: int)
    requires
        0 <= n < 16,
    ensures
        hex_val(hex_digit(n)) == n,
{
}

/// How one character of a path is written inside a JSON string: quote and
/// backslash get a backslash escape, control characters a `\u00XX` escape,
/// and every other character stands as itself.
pub open spec fn esc_char(c: char) -> Seq<char> {
    if c == '"' {
        seq!['\\', '"']
    } else if c == '\\' {
        seq!['\\', '\\']
    } else if (c as u32) < 0x20 {
        seq![
            '\\',
            'u',
            '0',
            '0',
            hex_digit((c as u32) as int / 16),
            hex_digit((c as u32) as int % 16),
        ]
    } else {
        seq![c]
    }
}

/// A path written as the body of a JSON string, character by character.
pub open spec fn escape(s: Seq<char>) -> Seq<char>
    decreases s.len(),
{
    if s.len() == 0 {
        Seq::empty()
    } else {
        esc_char(s[0]) + escape(s.skip(1))
    }
}

/// The quoted key of the configuration object.
pub open spec fn key_text() -> Seq<char> {
    seq!['"', 'f', 'i', 'l', 'e', '_', 'p', 'a', 't', 'h', '"']
}

/// The serialized configuration object for the path `p`: a single-field
/// JSON object, written compactly.
pub open spec fn config_json(p: Seq<char>) -> Seq<char> {
    seq!['{'] + key_text() + seq![':', '"'] + escape(p) + seq!['"', '}']
}

/// The serialized configuration object that records `path`.
pub fn config_to_json(path: &str) -> (r: String)
    ensures
        r@ == config_json(path@),
{
    let p = chars_of(path);
    let mut out: Vec<char> = Vec::new();
    out.push('{');
    out.push('"');
    out.push('f');
    out.push('i');
    out.push('l');
    out.push('e');
    out.push('_');
    out.push('p');
    out.push('a');
    out.push('t');
    out.push('h');
    out.push('"');
    out.push(':');
    out.push('"');
    proof {
        assert(out@ =~= seq!['{'] + key_text() + seq![':', '"']);
    }
    let ghost head = out@;
    let n = p.len();
    let mut i: usize = 0;
    proof {
        assert(p@.skip(0) =~= p@);
    }
    while i < n
        invariant
            i <= n == p@.len(),
            head + escape(p@) == out@ + escape(p@.skip(i as int)),
        decreases n - i,
    {
        proof {
            assert(p@.skip(i as int)[0] == p@[i as int]);
            assert(p@.skip(i as int).skip(1) =~= p@.skip(i + 1));
        }
        let ghost pre = out@;
        let c = p[i];
        if c == '"' {
            out.push('\\');
            out.push('"');
        } else if c == '\\' {
            out.push('\\');
            out.push('\\');
        } else {
            let code = c as u32;
            if code < 0x20 {
                out.push('\\');
                out.push('u');
                out.push('0');
                out.push('0');
                out.push(hex_digit_char((code / 16) as u8));
                out.push(hex_digit_char((code % 16) as u8));
            } else {
                out.push(c);
            }
        }
        proof {
            assert(out@ =~= pre + esc_char(p@[i as int]));
            assert((pre + esc_char(p@[i as int])) + escape(p@.skip(i + 1)) =~= pre + (esc_char(
                p@[i as int],
            ) + escape(p@.skip(i + 1))));
        }
        i += 1;
    }
    out.push('"');
    out.push('}');
    proof {
        assert(escape(p@.skip(n as int)) =~= Seq::<char>::empty());
        assert(head + escape(p@) =~= (out@.drop_last().drop_last()) + escape(p@.skip(n as int)));
        assert(out@ =~= config_json(path@));
    }
    string_of(&out)
}

/// The lowercase hexadecimal digit for `n`.
fn hex_digit_char(n: u8) -> (c: char)
    requires
        n < 16,
    ensures
        c == hex_digit(n as int),
{
    if n == 0 {
        '0'
    } else if n == 1 {
        '1'
    } else if n == 2 {
        '2'
    } else if n == 3 {
        '3'
    } else if n == 4 {
        '4'
    } else if n == 5 {
        '5'
    } else if n == 6 {
        '6'
    } else if n == 7 {
        '7'
    } else if n == 8 {
        '8'
    } else if n == 9 {
        '9'
    } else if n == 10 {
        'a'
    } else if n == 11 {
        'b'
    } else if n == 12 {
        'c'
    } else if n == 13 {
        'd'
    } else if n == 14 {
        'e'
    } else {
        'f'
    }
}

/// The character a simple backslash escape stands for, if the escape is
/// one JSON allows.
pub open spec fn simple_unesc(e: char) -> Option<char> {
    if e == '"' {
        Option::Some('"')
    } else if e == '\\' {
        Option::Some('\\')
    } else if e == '/' {
        Option::Some('/')
    } else if e == 'b' {
        Option::Some('\u{8}')
    } else if e == 'f' {
        Option::Some('\u{c}')
    } else if e == 'n' {
        Option::Some('\n')
    } else if e == 'r' {
        Option::Some('\r')
    } else if e == 't' {
        Option::Some('\t')
    } else {
        Option::None
    }
}

/// Prefixes `p` to the decoded value of a string-body parse, leaving a
/// failed parse failed.
pub open spec fn prepend_val(p: Seq<char>, o: Option<(Seq<char>, Seq<char>)>) -> Option<
    (Seq<char>, Seq<char>),
> {
    match o {
        Option::None => Option::None,
        Option::Some(t) => Option::Some((p + t.0, t.1)),
    }
}

proof fn lemma_prepend_assoc(a: Seq<char>, b: Seq<char>, o: Option<(Seq<char>, Seq<char>)>)
    ensures
        prepend_val(a, prepend_val(b, o)) == prepend_val(a + b, o),
{
    match o {
        Option::None => {},
        Option::Some(t) => {
            assert(a + (b + t.0) =~= (a + b) + t.0);
        },
    }
}

/// Reads the body of a JSON string up to its closing quote: the decoded
/// value and the text after the quote. Simple escapes, `\u00XX` escapes
/// and raw characters are accepted; anything else, or a missing closing
/// quote, fails.
pub open spec fn unescape_body(s: Seq<char>) -> Option<(Seq<char>, Seq<char>)>
    decreases s.len(),
{
    if s.len() == 0 {
        Option::None
    } else if s[0] == '"' {
        Option::Some((Seq::empty(), s.skip(1)))
    } else if s[0] == '\\' {
        if s.len() < 2 {
            Option::None
        } else if s[1] == 'u' {
            if s.len() >= 6 && s[2] == '0' && s[3] == '0' && hex_val(s[4]) >= 0 && hex_val(s[5])
                >= 0 {
                prepend_val(
                    seq![(((16 * hex_val(s[4]) + hex_val(s[5])) as u32) as char)],
                    unescape_body(s.skip(6)),
                )
            } else {
                Option::None
            }
        } else {
            match simple_unesc(s[1]) {
                Option::Some(c) => prepend_val(seq![c], unescape_body(s.skip(2))),
                Option::None => Option::None,
            }
        }
    } else {
        prepend_val(seq![s[0]], unescape_body(s.skip(1)))
    }
}

/// Whether `s` begins with `p`.
pub open spec fn starts_with(s: Seq<char>, p: Seq<char>) -> bool {
    p.len() <= s.len() && s.subrange(0, p.len() as int) == p
}

/// What parsing the configuration text yields: the recorded path, or
/// nothing when the text is not a JSON object with the single key
/// `file_path` and a string value. Whitespace around the tokens is
/// accepted; anything else fails.
pub open spec fn parse_config_text(s: Seq<char>) -> Option<Seq<char>> {
    let s1 = trim_front(s);
    if s1.len() == 0 || s1[0] != '{' {
        Option::None
    } else {
        let s2 = trim_front(s1.skip(1));
        if !starts_with(s2, key_text()) {
            Option::None
        } else {
            let s3 = trim_front(s2.skip(key_text().len() as int));
            if s3.len() == 0 || s3[0] != ':' {
                Option::None
            } else {
                let s4 = trim_front(s3.skip(1));
                if s4.len() == 0 || s4[0] != '"' {
                    Option::None
                } else {
                    match unescape_body(s4.skip(1)) {
                        Option::None => Option::None,
                        Option::Some(t) => {
                            let s5 = trim_front(t.1);
                            if s5.len() == 0 || s5[0] != '}' {
                                Option::None
                            } else if trim_front(s5.skip(1)).len() != 0 {
                                Option::None
                            } else {
                                Option::Some(t.0)
                            }
                        },
                    }
                }
            }
        }
    }
}

/// The error string returned when the configuration text cannot be parsed.
pub open spec fn config_error_text() -> Seq<char> {
    "invalid configuration JSON"@
}

/// The index of the first non-whitespace character at or after `i`.
fn skip_ws(v: &Vec<char>, i: usize) -> (j: usize)
    requires
        i <= v@.len(),
    ensures
        i <= j <= v@.len(),
        trim_front(v@.skip(i as int)) == v@.skip(j as int),
{
    let n = v.len();
    let mut j = i;
    while j < n && is_ws_char(v[j])
        invariant
            i <= j <= n == v@.len(),
            trim_front(v@.skip(i as int)) == trim_front(v@.skip(j as int)),
        decreases n - j,
    {
        proof {
            assert(v@.skip(j as int)[0] == v@[j as int]);
            assert(v@.skip(j as int).skip(1) =~= v@.skip(j + 1));
        }
        j += 1;
    }
    proof {
        if j < n {
            assert(v@.skip(j as int)[0] == v@[j as int]);
        }
        assert(trim_front(v@.skip(j as int)) == v@.skip(j as int));
    }
    j
}

/// Whether the quoted key stands in `v` at position `i`.
fn match_key(v: &Vec<char>, i: usize) -> (b: bool)
    requires
        i <= v@.len(),
    ensures
        b == starts_with(v@.skip(i as int), key_text()),
{
    let n = v.len();
    let ghost s = v@.skip(i as int);
    if n - i < 11 {
        return false;
    }
    proof {
        assert forall|m: int| 0 <= m < 11 implies #[trigger] s[m] == v@[i + m] by {}
    }
    let ok = v[i] == '"' && v[i + 1] == 'f' && v[i + 2] == 'i' && v[i + 3] == 'l' && v[i + 4]
        == 'e' && v[i + 5] == '_' && v[i + 6] == 'p' && v[i + 7] == 'a' && v[i + 8] == 't' && v[i
        + 9] == 'h' && v[i + 10] == '"';
    proof {
        if ok {
            assert(s.subrange(0, 11) =~= key_text());
        } else {
            if starts_with(s, key_text()) {
                assert forall|m: int| 0 <= m < 11 implies #[trigger] v@[i + m] == key_text()[m] by {
                    assert(s.subrange(0, 11)[m] == s[m]);
                }
                assert(v@[i + 0] == '"');
                assert(v@[i + 1] == 'f');
                assert(v@[i + 2] == 'i');
                assert(v@[i + 3] == 'l');
                assert(v@[i + 4] == 'e');
                assert(v@[i + 5] == '_');
                assert(v@[i + 6] == 'p');
                assert(v@[i + 7] == 'a');
                assert(v@[i + 8] == 't');
                assert(v@[i + 9] == 'h');
                assert(v@[i + 10] == '"');
            }
        }
    }
    ok
}

/// The value of a hexadecimal digit, either case, or -1.
fn hex_val_char(c: char) -> (r: i32)
    ensures
        r as int == hex_val(c),
{
    match c {
        '0' => 0,
        '1' => 1,
        '2' => 2,
        '3' => 3,
        '4' => 4,
        '5' => 5,
        '6' => 6,
        '7' => 7,
        '8' => 8,
        '9' => 9,
        'a' | 'A' => 10,
        'b' | 'B' => 11,
        'c' | 'C' => 12,
        'd' | 'D' => 13,
        'e' | 'E' => 14,
        'f' | 'F' => 15,
        _ => -1,
    }
}

/// The character a simple backslash escape stands for, if any.
fn simple_unesc_char(e: char) -> (r: Option<char>)
    ensures
        r == simple_unesc(e),
{
    match e {
        '"' => Option::Some('"'),
        '\\' => Option::Some('\\'),
        '/' => Option::Some('/'),
        'b' => Option::Some('\u{8}'),
        'f' => Option::Some('\u{c}'),
        'n' => Option::Some('\n'),
        'r' => Option::Some('\r'),
        't' => Option::Some('\t'),
        _ => Option::None,
    }
}

/// Reads a JSON string body out of `v` starting at `start`: the decoded
/// value and the index just past the closing quote.
fn parse_string_body(v: &Vec<char>, start: usize) -> (r: Option<(Vec<char>, usize)>)
    requires
        start <= v@.len(),
    ensures
        match r {
            Option::None => unescape_body(v@.skip(start as int)) is None,
            Option::Some(t) => t.1 <= v@.len() && unescape_body(v@.skip(start as int))
                == Option::Some((t.0@, v@.skip(t.1 as int))),
        },
{
    let n = v.len();
    let mut val: Vec<char> = Vec::new();
    let mut i = start;
    proof {
        assert(prepend_val(val@, unescape_body(v@.skip(start as int))) == unescape_body(
            v@.skip(start as int),
        )) by {
            match unescape_body(v@.skip(start as int)) {
                Option::None => {},
                Option::Some(t) => {
                    assert(Seq::<char>::empty() + t.0 =~= t.0);
                },
            }
        }
    }
    while i < n
        invariant
            start <= i <= n == v@.len(),
            unescape_body(v@.skip(start as int)) == prepend_val(
                val@,
                unescape_body(v@.skip(i as int)),
            ),
        decreases n - i,
    {
        let ghost s = v@.skip(i as int);
        proof {
            assert(s[0] == v@[i as int]);
        }
        let ghost pre = val@;
        let c = v[i];
        if c == '"' {
            proof {
                assert(s.skip(1) =~= v@.skip(i + 1));
                assert(val@ + Seq::<char>::empty() =~= val@);
            }
            return Option::Some((val, i + 1));
        } else if c == '\\' {
            if n - i < 2 {
                return Option::None;
            }
            proof {
                assert(s[1] == v@[i + 1]);
            }
            let e = v[i + 1];
            if e == 'u' {
                if n - i < 6 {
                    return Option::None;
                }
                proof {
                    assert(s[2] == v@[i + 2]);
                    assert(s[3] == v@[i + 3]);
                    assert(s[4] == v@[i + 4]);
                    assert(s[5] == v@[i + 5]);
                }
                let h1 = hex_val_char(v[i + 4]);
                let h2 = hex_val_char(v[i + 5]);
                if !(v[i + 2] == '0' && v[i + 3] == '0' && h1 >= 0 && h2 >= 0) {
                    return Option::None;
                }
                let code = (16 * h1 + h2) as u8;
                let ch = code as char;
                val.push(ch);
                proof {
                    assert(s.skip(6) =~= v@.skip(i + 6));
                    lemma_prepend_assoc(pre, seq![ch], unescape_body(v@.skip(i + 6)));
                    assert(pre + seq![ch] =~= val@);
                }
                i += 6;
            } else {
                match simple_unesc_char(e) {
                    Option::None => {
                        return Option::None;
                    },
                    Option::Some(c2) => {
                        val.push(c2);
                        proof {
                            assert(s.skip(2) =~= v@.skip(i + 2));
                            lemma_prepend_assoc(pre, seq![c2], unescape_body(v@.skip(i + 2)));
                            assert(pre + seq![c2] =~= val@);
                        }
                        i += 2;
                    },
                }
            }
        } else {
            val.push(c);
            proof {
                assert(s.skip(1) =~= v@.skip(i + 1));
                lemma_prepend_assoc(pre, seq![c], unescape_body(v@.skip(i + 1)));
                assert(pre + seq![c] =~= val@);
            }
            i += 1;
        }
    }
    Option::None
}

/// The error string for a configuration text that cannot be parsed.
fn config_error() -> (e: String)
    ensures
        e@ == config_error_text(),
{
    String::from_str("invalid configuration JSON")
}

/// Parses the configuration text and returns the recorded path, or a
/// descriptive error when the text is not a well-formed configuration
/// object.
pub fn config_from_json(s: &str) -> (r: Result<String, String>)
    ensures
        match r {
            Result::Ok(p) => parse_config_text(s@) == Option::Some(p@),
            Result::Err(e) => parse_config_text(s@) is None && e@ == config_error_text(),
        },
{
    let v = chars_of(s);
    let n = v.len();
    proof {
        assert(v@.skip(0) =~= v@);
    }
    let j0 = skip_ws(&v, 0);
    if j0 == n || v[j0] != '{' {
        proof {
            if j0 < n {
                assert(v@.skip(j0 as int)[0] == v@[j0 as int]);
            }
        }
        return Result::Err(config_error());
    }
    proof {
        assert(v@.skip(j0 as int)[0] == v@[j0 as int]);
        assert(v@.skip(j0 as int).skip(1) =~= v@.skip(j0 + 1));
    }
    let j1 = skip_ws(&v, j0 + 1);
    if !match_key(&v, j1) {
        return Result::Err(config_error());
    }
    proof {
        assert(key_text().len() == 11);
        assert(v@.skip(j1 as int).skip(11) =~= v@.skip(j1 + 11));
    }
    let j2 = skip_ws(&v, j1 + 11);
    if j2 == n || v[j2] != ':' {
        proof {
            if j2 < n {
                assert(v@.skip(j2 as int)[0] == v@[j2 as int]);
            }
        }
        return Result::Err(config_error());
    }
    proof {
        assert(v@.skip(j2 as int)[0] == v@[j2 as int]);
        assert(v@.skip(j2 as int).skip(1) =~= v@.skip(j2 + 1));
    }
    let j3 = skip_ws(&v, j2 + 1);
    if j3 == n || v[j3] != '"' {
        proof {
            if j3 < n {
                assert(v@.skip(j3 as int)[0] == v@[j3 as int]);
            }
        }
        return Result::Err(config_error());
    }
    proof {
        assert(v@.skip(j3 as int)[0] == v@[j3 as int]);
        assert(v@.skip(j3 as int).skip(1) =~= v@.skip(j3 + 1));
    }
    match parse_string_body(&v, j3 + 1) {
        Option::None => Result::Err(config_error()),
        Option::Some((w, j)) => {
            let j4 = skip_ws(&v, j);
            if j4 == n || v[j4] != '}' {
                proof {
                    if j4 < n {
                        assert(v@.skip(j4 as int)[0] == v@[j4 as int]);
                    }
                }
                return Result::Err(config_error());
            }
            proof {
                assert(v@.skip(j4 as int)[0] == v@[j4 as int]);
                assert(v@.skip(j4 as int).skip(1) =~= v@.skip(j4 + 1));
            }
            let j5 = skip_ws(&v, j4 + 1);
            if j5 != n {
                return Result::Err(config_error());
            }
            Result::Ok(string_of(&w))
        },
    }
}

proof fn lemma_unescape_escape(p: Seq<char>, rest: Seq<char>)
    ensures
        unescape_body(escape(p) + seq!['"'] + rest) == Option::Some((p, rest)),
    decreases p.len(),
{
    let s = escape(p) + seq!['"'] + rest;
    if p.len() == 0 {
        assert(escape(p) =~= Seq::<char>::empty());
        assert(s[0] == '"');
        assert(s.skip(1) =~= rest);
        assert(p =~= Seq::<char>::empty());
    } else {
        let c = p[0];
        lemma_unescape_escape(p.skip(1), rest);
        let s2 = escape(p.skip(1)) + seq!['"'] + rest;
        assert(escape(p) == esc_char(c) + escape(p.skip(1)));
        assert(seq![c] + p.skip(1) =~= p);
        if c == '"' {
            assert(s[0] == '\\');
            assert(s[1] == '"');
            assert(s.skip(2) =~= s2);
        } else if c == '\\' {
            assert(s[0] == '\\');
            assert(s[1] == '\\');
            assert(s.skip(2) =~= s2);
        } else if (c as u32) < 0x20 {
            let u = (c as u32) as int;
            assert(s[0] == '\\');
            assert(s[1] == 'u');
            assert(s[2] == '0');
            assert(s[3] == '0');
            assert(s[4] == hex_digit(u / 16));
            assert(s[5] == hex_digit(u % 16));
            lemma_hex_round_trip(u / 16);
            lemma_hex_round_trip(u % 16);
            assert(16 * (u / 16) + u % 16 == u);
            assert(((16 * hex_val(s[4]) + hex_val(s[5])) as u32) == c as u32);
            vstd::utf8::char_u32_cast(c, c as u32);
            assert(s.skip(6) =~= s2);
        } else {
            assert(s[0] == c);
            assert(s.skip(1) =~= s2);
        }
    }
}

/// Round trip: parsing the serialized configuration object gives back
/// exactly the path that was recorded, whatever characters it holds. This
/// is what makes a save followed by a load return the saved path.
pub proof fn lemma_config_round_trip(p: Seq<char>)
    ensures
        parse_config_text(config_json(p)) == Option::Some(p),
{
    let s = config_json(p);
    assert(s[0] == '{');
    assert(trim_front(s) == s);
    let t1 = s.skip(1);
    assert(t1 =~= key_text() + seq![':', '"'] + escape(p) + seq!['"', '}']);
    assert(t1[0] == '"');
    assert(trim_front(t1) == t1);
    assert(t1.subrange(0, 11) =~= key_text());
    assert(starts_with(t1, key_text()));
    let t2 = t1.skip(11);
    assert(t2 =~= seq![':', '"'] + escape(p) + seq!['"', '}']);
    assert(t2[0] == ':');
    assert(trim_front(t2) == t2);
    let t3 = t2.skip(1);
    assert(t3 =~= seq!['"'] + escape(p) + seq!['"', '}']);
    assert(t3[0] == '"');
    assert(trim_front(t3) == t3);
    let t4 = t3.skip(1);
    assert(t4 =~= escape(p) + seq!['"'] + seq!['}']);
    lemma_unescape_escape(p, seq!['}']);
    assert(unescape_body(t4) == Option::Some((p, seq!['}'])));
    let t5: Seq<char> = seq!['}'];
    assert(trim_front(t5) == t5);
    assert(t5.skip(1) =~= Seq::<char>::empty());
    assert(trim_front(t5.skip(1)).len() == 0);
}

/// Turns the outcome of reading the configuration file into the stored
/// setting: absence of the file is no error but an absent setting; content
/// that parses yields the recorded path; content that does not parse is a
/// descriptive error.
pub fn settings_from_read(r: Option<String>) -> (res: Result<Option<String>, String>)
    ensures
        match res {
            Result::Ok(opt) => match opt {
                Option::None => r is None,
                Option::Some(p) => r is Some && parse_config_text(r->0@) == Option::Some(p@),
            },
            Result::Err(e) => r is Some && parse_config_text(r->0@) is None && e@
                == config_error_text(),
        },
{
    match r {
        Option::None => Result::Ok(Option::None),
        Option::Some(content) => match config_from_json(content.as_str()) {
            Result::Ok(p) => Result::Ok(Option::Some(p)),
            Result::Err(e) => Result::Err(e),
        },
    }
}

/// The name of the configuration file under the user's home directory.
pub open spec fn config_file_name() -> Seq<char> {
    ".quicknote_config.json"@
}

/// Where the configuration file lives for the home directory `home`: the
/// file name appended under `home`, with a path separator added unless one
/// is already there.
pub open spec fn config_path_text(home: Seq<char>) -> Seq<char> {
    if home.len() == 0 {
        config_file_name()
    } else if home[home.len() - 1] == '/' {
        home + config_file_name()
    } else {
        home + seq!['/'] + config_file_name()
    }
}

/// The path of the configuration file under the home directory `home`.
pub fn config_file_path(home: &str) -> (r: String)
    ensures
        r@ == config_path_text(home@),
{
    let n = home.unicode_len();
    let mut r = String::new();
    if n == 0 {
        r.append(".quicknote_config.json");
        proof {
            assert(r@ =~= config_file_name());
        }
        return r;
    }
    r.append(home);
    if home.get_char(n - 1) != '/' {
        r.append("/");
        proof {
            reveal_strlit("/");
            assert(r@ =~= home@ + seq!['/']);
        }
    }
    r.append(".quicknote_config.json");
    proof {
        if home@[home@.len() - 1] == '/' {
            assert(r@ =~= home@ + config_file_name());
        } else {
            assert(r@ =~= home@ + seq!['/'] + config_file_name());
        }
    }
    r
}

} // verus!
