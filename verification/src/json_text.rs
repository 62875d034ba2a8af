use crate::timestamp::{digit_val, is_digit};
use vstd::arithmetic::div_mod::lemma_fundamental_div_mod;
use vstd::prelude::*;

verus! {

broadcast use vstd::utf8::char_is_scalar, vstd::utf8::char_u32_cast;

// ---------------------------------------------------------------------------
// Encoding: a JSON string literal around arbitrary text.
// ---------------------------------------------------------------------------

/// A lowercase hexadecimal digit character.
pub open spec fn hex_digit_char(d: int) -> char {
    if d < 10 {
        (48 + d) as char
    } else {
        (87 + d) as char
    }
}

/// How one character is written inside a JSON string literal: quote and
/// backslash escaped, the named control escapes, `\u00xx` for the other
/// control characters, everything else verbatim.
pub open spec fn escape_char(c: char) -> Seq<char> {
    if c == '"' {
        seq!['\\', '"']
    } else if c == '\\' {
        seq!['\\', '\\']
    } else if c == '\u{8}' {
        seq!['\\', 'b']
    } else if c == '\u{9}' {
        seq!['\\', 't']
    } else if c == '\u{a}' {
        seq!['\\', 'n']
    } else if c == '\u{c}' {
        seq!['\\', 'f']
    } else if c == '\u{d}' {
        seq!['\\', 'r']
    } else if (c as u32) < 32 {
        seq![
            '\\',
            'u',
            '0',
            '0',
            hex_digit_char((c as u32) as int / 16),
            hex_digit_char((c as u32) as int % 16),
        ]
    } else {
        seq![c]
    }
}

/// The body of the JSON string literal holding `s`.
pub open spec fn escape_text(s: Seq<char>) -> Seq<char>
    decreases s.len(),
{
    if s.len() == 0 {
        Seq::<char>::empty()
    } else {
        escape_char(s[0]) + escape_text(s.drop_first())
    }
}

/// The JSON string literal holding `s`: the escaped body in quotes.
pub open spec fn json_string_chars(s: Seq<char>) -> Seq<char> {
    seq!['"'] + escape_text(s) + seq!['"']
}

// ---------------------------------------------------------------------------
// Decoding: strict parsing of a JSON string literal.
// ---------------------------------------------------------------------------

pub open spec fn is_hex(c: char) -> bool {
    is_digit(c) || 97 <= c as int <= 102 || 65 <= c as int <= 70
}

pub open spec fn hex_val(c: char) -> int {
    if is_digit(c) {
        digit_val(c)
    } else if 97 <= c as int {
        c as int - 87
    } else {
        c as int - 55
    }
}

pub open spec fn hex4_at(s: Seq<char>, i: int) -> bool {
    is_hex(s[i]) && is_hex(s[i + 1]) && is_hex(s[i + 2]) && is_hex(s[i + 3])
}

pub open spec fn hex4_val(s: Seq<char>, i: int) -> int {
    hex_val(s[i]) * 4096 + hex_val(s[i + 1]) * 256 + hex_val(s[i + 2]) * 16 + hex_val(s[i + 3])
}

/// One decoded scalar starting at `i` (not at the closing quote): the
/// character it denotes and the position after it. Surrogate escapes must
/// come in a high-low pair; a lone surrogate is rejected.
pub open spec fn unescape_step(s: Seq<char>, i: int) -> Option<(char, int)> {
    if s[i] == '\\' {
        if i + 2 > s.len() {
            None
        } else {
            let e = s[i + 1];
            if e == '"' || e == '\\' || e == '/' {
                Some((e, i + 2))
            } else if e == 'b' {
                Some(('\u{8}', i + 2))
            } else if e == 't' {
                Some(('\u{9}', i + 2))
            } else if e == 'n' {
                Some(('\u{a}', i + 2))
            } else if e == 'f' {
                Some(('\u{c}', i + 2))
            } else if e == 'r' {
                Some(('\u{d}', i + 2))
            } else if e == 'u' {
                if i + 6 > s.len() || !hex4_at(s, i + 2) {
                    None
                } else {
                    let v = hex4_val(s, i + 2);
                    if v < 0xD800 || v >= 0xE000 {
                        Some((v as char, i + 6))
                    } else if v < 0xDC00 {
                        if i + 12 > s.len() || s[i + 6] != '\\' || s[i + 7] != 'u' || !hex4_at(
                            s,
                            i + 8,
                        ) {
                            None
                        } else {
                            let lo = hex4_val(s, i + 8);
                            if 0xDC00 <= lo < 0xE000 {
                                Some(
                                    (
                                        (0x10000 + (v - 0xD800) * 0x400 + (lo - 0xDC00)) as char,
                                        i + 12,
                                    ),
                                )
                            } else {
                                None
                            }
                        }
                    } else {
                        None
                    }
                }
            } else {
                None
            }
        }
    } else if s[i] == '"' || (s[i] as u32) < 32 {
        None
    } else {
        Some((s[i], i + 1))
    }
}

/// The text denoted by the literal's body from `i` up to a closing quote
/// that must stand exactly at the end of `s`.
pub open spec fn unescape_text(s: Seq<char>, i: int) -> Option<Seq<char>>
    decreases s.len() - i,
{
    if i >= s.len() {
        None
    } else if s[i] == '"' {
        if i == s.len() - 1 {
            Some(Seq::<char>::empty())
        } else {
            None
        }
    } else {
        match unescape_step(s, i) {
            Option::None => None,
            Option::Some((c, k)) => {
                if k <= i || k > s.len() {
                    None
                } else {
                    match unescape_text(s, k) {
                        Option::None => None,
                        Option::Some(t) => Some(seq![c] + t),
                    }
                }
            },
        }
    }
}

/// The text a whole field denotes, provided the field is exactly one
/// syntactically valid JSON string literal.
pub open spec fn parse_json_string(f: Seq<char>) -> Option<Seq<char>> {
    if f.len() >= 1 && f[0] == '"' {
        unescape_text(f, 1)
    } else {
        None
    }
}

// ---------------------------------------------------------------------------
// Executable encoding.
// ---------------------------------------------------------------------------

fn hex_digit_exec(d: u32) -> (c: char)
    requires
        d <= 15,
    ensures
        c == hex_digit_char(d as int),
{
    if d < 10 {
        (48 + d as u8) as char
    } else {
        (87 + d as u8) as char
    }
}

/// `escape_text` grows one escaped character at a time.
proof fn lemma_escape_text_push(s: Seq<char>, c: char)
    ensures
        escape_text(s.push(c)) == escape_text(s) + escape_char(c),
    decreases s.len(),
{
    assert(escape_text(Seq::<char>::empty()) =~= Seq::<char>::empty());
    if s.len() == 0 {
        assert(s.push(c).drop_first() =~= Seq::<char>::empty());
        assert(s.push(c)[0] == c);
        assert(escape_text(s.push(c)) == escape_char(c) + escape_text(Seq::<char>::empty()));
        assert(escape_text(s.push(c)) =~= escape_char(c));
        assert(escape_text(s) + escape_char(c) =~= escape_char(c));
    } else {
        assert(s.push(c).drop_first() =~= s.drop_first().push(c));
        assert(s.push(c)[0] == s[0]);
        lemma_escape_text_push(s.drop_first(), c);
        assert(escape_text(s.push(c)) == escape_char(s[0]) + escape_text(s.drop_first().push(c)));
        assert(escape_text(s.push(c)) =~= escape_text(s) + escape_char(c));
    }
}

/// Write `text` as a JSON string literal.
pub fn encode_json_string(text: &Vec<char>) -> (r: Vec<char>)
    ensures
        r@ == json_string_chars(text@),
{
    let n = text.len();
    let mut out: Vec<char> = Vec::new();
    out.push('"');
    let mut i: usize = 0;
    while i < n
        invariant
            i <= n,
            n == text@.len(),
            out@ == seq!['"'] + escape_text(text@.subrange(0, i as int)),
        decreases n - i,
    {
        let c = text[i];
        let ghost prefix = text@.subrange(0, i as int);
        if c == '"' {
            out.push('\\');
            out.push('"');
        } else if c == '\\' {
            out.push('\\');
            out.push('\\');
        } else if c == '\u{8}' {
            out.push('\\');
            out.push('b');
        } else if c == '\u{9}' {
            out.push('\\');
            out.push('t');
        } else if c == '\u{a}' {
            out.push('\\');
            out.push('n');
        } else if c == '\u{c}' {
            out.push('\\');
            out.push('f');
        } else if c == '\u{d}' {
            out.push('\\');
            out.push('r');
        } else if (c as u32) < 32 {
            let u = c as u32;
            out.push('\\');
            out.push('u');
            out.push('0');
            out.push('0');
            out.push(hex_digit_exec(u / 16));
            out.push(hex_digit_exec(u % 16));
        } else {
            out.push(c);
        }
        i = i + 1;
        proof {
            lemma_escape_text_push(prefix, c);
            assert(prefix.push(c) =~= text@.subrange(0, i as int));
            assert(out@ =~= seq!['"'] + escape_text(prefix) + escape_char(c));
            assert(out@ =~= seq!['"'] + escape_text(text@.subrange(0, i as int)));
        }
    }
    out.push('"');
    proof {
        assert(text@.subrange(0, n as int) =~= text@);
        assert(out@ =~= json_string_chars(text@));
    }
    out
}

// ---------------------------------------------------------------------------
// Executable decoding.
// ---------------------------------------------------------------------------

/// Relies on `char::from_u32`: `Some` exactly for the Unicode scalar
/// values, that is anything up to 0x10FFFF except the surrogate range,
/// and the returned character has exactly the given value.
#[verifier::external_body]
fn char_from_u32(v: u32) -> (r: Option<char>)
    ensures
        r is Some <==> (v < 0xD800 || (0xE000 <= v && v <= 0x10FFFF)),
        r matches Some(c) ==> c as u32 == v && c == (v as int) as char,
{
    char::from_u32(v)
}

fn is_hex_exec(c: char) -> (r: bool)
    ensures
        r == is_hex(c),
{
    let u = c as u32;
    (48 <= u && u <= 57) || (97 <= u && u <= 102) || (65 <= u && u <= 70)
}

fn hex_val_exec(c: char) -> (r: u32)
    requires
        is_hex(c),
    ensures
        r as int == hex_val(c),
        r <= 15,
{
    let u = c as u32;
    if 48 <= u && u <= 57 {
        u - 48
    } else if 97 <= u {
        u - 87
    } else {
        u - 55
    }
}

/// Read the four hex digits at `i`, if they are there.
fn hex4_exec(s: &Vec<char>, i: usize) -> (r: Option<u32>)
    requires
        i + 4 <= s@.len(),
    ensures
        match r {
            Option::Some(v) => hex4_at(s@, i as int) && v as int == hex4_val(s@, i as int) && v
                <= 0xFFFF,
            Option::None => !hex4_at(s@, i as int),
        },
{
    let n = s.len();
    if is_hex_exec(s[i]) && is_hex_exec(s[i + 1]) && is_hex_exec(s[i + 2]) && is_hex_exec(
        s[i + 3],
    ) {
        Some(
            hex_val_exec(s[i]) * 4096 + hex_val_exec(s[i + 1]) * 256 + hex_val_exec(s[i + 2]) * 16
                + hex_val_exec(s[i + 3]),
        )
    } else {
        None
    }
}

/// Read one JSON string literal field back into the text it denotes, as
/// `parse_json_string` describes it.
pub fn decode_json_string(f: &Vec<char>) -> (r: Option<Vec<char>>)
    ensures
        match r {
            Option::Some(t) => parse_json_string(f@) == Some(t@),
            Option::None => parse_json_string(f@) is None,
        },
{
    let n = f.len();
    if n < 1 || f[0] != '"' {
        return None;
    }
    let mut i: usize = 1;
    let mut acc: Vec<char> = Vec::new();
    loop
        invariant
            1 <= i <= n,
            n == f@.len(),
            unescape_text(f@, 1) == match unescape_text(f@, i as int) {
                Option::Some(t) => Some(acc@ + t),
                Option::None => Option::<Seq<char>>::None,
            },
            parse_json_string(f@) == unescape_text(f@, 1),
        decreases n - i,
    {
        if i >= n {
            proof {
                assert(unescape_text(f@, i as int) is None);
            }
            return None;
        }
        let c = f[i];
        if c == '"' {
            if n - i == 1 {
                proof {
                    assert(unescape_text(f@, i as int) == Some(Seq::<char>::empty()));
                    assert(acc@ + Seq::<char>::empty() =~= acc@);
                }
                return Some(acc);
            } else {
                proof {
                    assert(unescape_text(f@, i as int) is None);
                }
                return None;
            }
        }
        let ghost prev = i as int;
        let mut decoded: char = ' ';
        if c == '\\' {
            if n - i < 2 {
                proof {
                    assert(unescape_step(f@, prev) is None);
                    assert(unescape_text(f@, prev) is None);
                }
                return None;
            }
            let e = f[i + 1];
            if e == '"' || e == '\\' || e == '/' {
                decoded = e;
                i = i + 2;
                proof {
                    assert(unescape_step(f@, prev) == Some((decoded, i as int)));
                }
            } else if e == 'b' {
                decoded = '\u{8}';
                i = i + 2;
                proof {
                    assert(unescape_step(f@, prev) == Some((decoded, i as int)));
                }
            } else if e == 't' {
                decoded = '\u{9}';
                i = i + 2;
                proof {
                    assert(unescape_step(f@, prev) == Some((decoded, i as int)));
                }
            } else if e == 'n' {
                decoded = '\u{a}';
                i = i + 2;
                proof {
                    assert(unescape_step(f@, prev) == Some((decoded, i as int)));
                }
            } else if e == 'f' {
                decoded = '\u{c}';
                i = i + 2;
                proof {
                    assert(unescape_step(f@, prev) == Some((decoded, i as int)));
                }
            } else if e == 'r' {
                decoded = '\u{d}';
                i = i + 2;
                proof {
                    assert(unescape_step(f@, prev) == Some((decoded, i as int)));
                }
            } else if e == 'u' {
                if n - i < 6 {
                    proof {
                        assert(unescape_step(f@, prev) is None);
                        assert(unescape_text(f@, prev) is None);
                    }
                    return None;
                }
                let v = match hex4_exec(f, i + 2) {
                    Option::Some(v) => v,
                    Option::None => {
                        proof {
                            assert(unescape_step(f@, prev) is None);
                            assert(unescape_text(f@, prev) is None);
                        }
                        return None;
                    },
                };
                if v < 0xD800 || v >= 0xE000 {
                    decoded = match char_from_u32(v) {
                        Option::Some(c2) => c2,
                        Option::None => {
                            proof {
                                assert(false);
                            }
                            return None;
                        },
                    };
                    i = i + 6;
                    proof {
                        assert(decoded as u32 == v);
                        assert(decoded == (v as int) as char);
                        assert(unescape_step(f@, prev) == Some((decoded, i as int)));
                    }
                } else if v < 0xDC00 {
                    if n - i < 12 || f[i + 6] != '\\' || f[i + 7] != 'u' {
                        proof {
                            assert(unescape_step(f@, prev) is None);
                            assert(unescape_text(f@, prev) is None);
                        }
                        return None;
                    }
                    let lo = match hex4_exec(f, i + 8) {
                        Option::Some(lo) => lo,
                        Option::None => {
                            proof {
                                assert(unescape_step(f@, prev) is None);
                                assert(unescape_text(f@, prev) is None);
                            }
                            return None;
                        },
                    };
                    if 0xDC00 <= lo && lo < 0xE000 {
                        let combined = 0x10000 + (v - 0xD800) * 0x400 + (lo - 0xDC00);
                        decoded = match char_from_u32(combined) {
                            Option::Some(c2) => c2,
                            Option::None => {
                                proof {
                                    assert(false);
                                }
                                return None;
                            },
                        };
                        i = i + 12;
                        proof {
                            assert(decoded as u32 == combined);
                            assert(decoded == (combined as int) as char);
                            assert(unescape_step(f@, prev) == Some((decoded, i as int)));
                        }
                    } else {
                        proof {
                            assert(unescape_step(f@, prev) is None);
                            assert(unescape_text(f@, prev) is None);
                        }
                        return None;
                    }
                } else {
                    proof {
                        assert(unescape_step(f@, prev) is None);
                        assert(unescape_text(f@, prev) is None);
                    }
                    return None;
                }
            } else {
                proof {
                    assert(unescape_step(f@, prev) is None);
                    assert(unescape_text(f@, prev) is None);
                }
                return None;
            }
        } else if (c as u32) < 32 {
            proof {
                assert(unescape_step(f@, prev) is None);
                assert(unescape_text(f@, prev) is None);
            }
            return None;
        } else {
            decoded = c;
            i = i + 1;
            proof {
                assert(unescape_step(f@, prev) == Some((decoded, i as int)));
            }
        }
        proof {
            assert(unescape_step(f@, prev) == Some((decoded, i as int)));
            assert(unescape_text(f@, prev) == (match unescape_text(f@, i as int) {
                Option::Some(t) => Some(seq![decoded] + t),
                Option::None => Option::<Seq<char>>::None,
            }));
        }
        acc.push(decoded);
        proof {
            if unescape_text(f@, i as int) is Some {
                let t = unescape_text(f@, i as int)->0;
                assert(acc@ + t =~= acc@.drop_last() + (seq![decoded] + t));
            }
        }
    }
}

// ---------------------------------------------------------------------------
// The round trip: decoding the encoding restores the text.
// ---------------------------------------------------------------------------

/// Hex digits render as hex characters that read back as themselves.
proof fn lemma_hex_digit_facts()
    ensures
        forall|d: int|
            0 <= d <= 15 ==> is_hex(#[trigger] hex_digit_char(d)) && hex_val(hex_digit_char(d))
                == d,
{
}

/// Decoding the escaped body of `s`, followed by a closing quote at the
/// very end, yields `s` back.
proof fn lemma_unescape_escape(f: Seq<char>, s: Seq<char>, i: int)
    requires
        0 <= i,
        f.len() == i + escape_text(s).len() + 1,
        f.subrange(i, i + escape_text(s).len() as int) == escape_text(s),
        f[f.len() - 1] == '"',
    ensures
        unescape_text(f, i) == Some(s),
    decreases s.len(),
{
    lemma_hex_digit_facts();
    if s.len() == 0 {
        assert(f[i] == '"');
    } else {
        let c = s[0];
        let e = escape_char(c);
        let rest = s.drop_first();
        let et = escape_text(s);
        let ret = escape_text(rest);
        assert(et == e + ret);
        let sub = f.subrange(i, i + et.len() as int);
        let w = e.len() as int;
        assert(1 <= w <= 6);
        assert forall|m: int| 0 <= m < et.len() implies f[i + m] == #[trigger] et[m] by {
            assert(sub[m] == et[m]);
            assert(sub[m] == f[i + m]);
        }
        let k = i + w;
        assert forall|m: int| 0 <= m < ret.len() implies #[trigger] f.subrange(
            k,
            k + ret.len() as int,
        )[m] == ret[m] by {
            assert(et[w + m] == ret[m]);
            assert(f[i + (w + m)] == et[w + m]);
            assert(f.subrange(k, k + ret.len() as int)[m] == f[k + m]);
            assert(f[k + m] == f[i + (w + m)]);
        }
        assert(f.subrange(k, k + ret.len() as int) =~= ret);
        if c == '"' || c == '\\' {
            assert(f[i + 0] == et[0] && f[i + 1] == et[1]);
            assert(et[0] == '\\' && et[1] == c);
            assert(unescape_step(f, i) == Some((c, i + 2)));
        } else if c == '\u{8}' || c == '\u{9}' || c == '\u{a}' || c == '\u{c}' || c == '\u{d}' {
            assert(f[i + 0] == et[0] && f[i + 1] == et[1]);
            assert(et[0] == '\\');
            assert(unescape_step(f, i) == Some((c, i + 2)));
        } else if (c as u32) < 32 {
            vstd::utf8::char_u32_cast(c, c as u32);
            let u = (c as u32) as int;
            assert(0 <= u < 32);
            assert(f[i + 0] == et[0] && f[i + 1] == et[1] && f[i + 2] == et[2] && f[i + 3] == et[3]
                && f[i + 4] == et[4] && f[i + 5] == et[5]);
            assert(et[0] == '\\' && et[1] == 'u' && et[2] == '0' && et[3] == '0');
            assert(et[4] == hex_digit_char(u / 16));
            assert(et[5] == hex_digit_char(u % 16));
            assert(0 <= u / 16 <= 1);
            assert(is_digit('0') && digit_val('0') == 0);
            assert(hex4_at(f, i + 2));
            lemma_fundamental_div_mod(u, 16);
            assert(hex4_val(f, i + 2) == u);
            assert(u as char == c);
            assert(unescape_step(f, i) == Some((c, i + 6)));
        } else {
            assert(f[i + 0] == et[0]);
            assert(et[0] == c);
            assert(unescape_step(f, i) == Some((c, i + 1)));
        }
        let pair = unescape_step(f, i)->0;
        let k2 = pair.1;
        assert(k2 == k);
        lemma_unescape_escape(f, rest, k2);
        assert(f[i] != '"' && i < f.len());
        assert(unescape_text(f, i) == Some(seq![c] + rest));
        assert(seq![c] + rest =~= s);
    }
}

/// Reading back the JSON string literal written for `s` yields `s`
/// exactly, whatever characters `s` holds.
pub proof fn lemma_json_round_trip(s: Seq<char>)
    ensures
        parse_json_string(json_string_chars(s)) == Some(s),
{
    let f = json_string_chars(s);
    assert(f[0] == '"');
    assert(f.subrange(1, 1 + escape_text(s).len() as int) =~= escape_text(s));
    assert(f[f.len() - 1] == '"');
    lemma_unescape_escape(f, s, 1);
}

} // verus!
