//! Canonical JSON rendering of a header mapping: an object whose
//! members are the entries, in order, with string keys and values.
//!
//! Escaping covers exactly what JSON requires of a string: the quote,
//! the backslash, and the control characters below U+0020.

use vstd::prelude::*;
use crate::headers::HeaderMap;

verus! {

/// The lower-case hexadecimal digit character for `d`.
pub open spec fn hex_digit(d: int) -> char {
    if d < 10 {
        (48 + d) as char
    } else {
        (87 + d) as char
    }
}

/// How one character reads inside a JSON string literal.
pub open spec fn escape_char(c: char) -> Seq<char> {
    if c == '"' {
        seq!['\\', '"']
    } else if c == '\\' {
        seq!['\\', '\\']
    } else if (c as u32) < 32 {
        seq![
            '\\',
            'u',
            '0',
            '0',
            hex_digit(((c as u32) as int) / 16),
            hex_digit(((c as u32) as int) % 16),
        ]
    } else {
        seq![c]
    }
}

/// How a whole character sequence reads inside a JSON string literal.
pub open spec fn escape_seq(s: Seq<char>) -> Seq<char>
    decreases s.len(),
{
    if s.len() == 0 {
        Seq::<char>::empty()
    } else {
        escape_char(s[0]) + escape_seq(s.drop_first())
    }
}

/// `s` as a quoted JSON string literal.
pub open spec fn json_string(s: Seq<char>) -> Seq<char> {
    seq!['"'] + escape_seq(s) + seq!['"']
}

/// One `"key":"value"` member.
pub open spec fn json_member(kv: (Seq<char>, Seq<char>)) -> Seq<char> {
    json_string(kv.0) + seq![':'] + json_string(kv.1)
}

/// The members of an object, in order, separated by commas.
pub open spec fn json_members(entries: Seq<(Seq<char>, Seq<char>)>) -> Seq<char>
    decreases entries.len(),
{
    if entries.len() == 0 {
        Seq::<char>::empty()
    } else if entries.len() == 1 {
        json_member(entries[0])
    } else {
        json_member(entries[0]) + seq![','] + json_members(entries.drop_first())
    }
}

/// `entries` as a JSON object.
pub open spec fn json_object(entries: Seq<(Seq<char>, Seq<char>)>) -> Seq<char> {
    seq!['{'] + json_members(entries) + seq!['}']
}

/// Whether `c` is a lower-case hexadecimal digit character.
pub open spec fn is_hex_char(c: char) -> bool {
    (48 <= c as int <= 57) || (97 <= c as int <= 102)
}

/// The numeric value of a lower-case hexadecimal digit character.
pub open spec fn hex_val(c: char) -> int {
    if c as int <= 57 {
        c as int - 48
    } else {
        c as int - 87
    }
}

/// Read a JSON string literal's remaining text: `s` stands just after
/// the opening quote, and a successful read yields the decoded
/// content and whatever follows the closing quote. Only the escapes
/// the encoder emits are accepted.
pub open spec fn parse_string_rec(s: Seq<char>) -> Option<(Seq<char>, Seq<char>)>
    decreases s.len(),
{
    if s.len() == 0 {
        None
    } else if s[0] == '"' {
        Some((Seq::<char>::empty(), s.drop_first()))
    } else if s[0] == '\\' {
        if s.len() < 2 {
            None
        } else if s[1] == '"' || s[1] == '\\' {
            match parse_string_rec(s.skip(2)) {
                Some(p) => Some((seq![s[1]] + p.0, p.1)),
                None => None,
            }
        } else if s[1] == 'u' {
            if s.len() < 6 {
                None
            } else if s[2] == '0' && s[3] == '0' && is_hex_char(s[4]) && is_hex_char(s[5]) && 16
                * hex_val(s[4]) + hex_val(s[5]) < 32 {
                match parse_string_rec(s.skip(6)) {
                    Some(p) => Some((seq![(16 * hex_val(s[4]) + hex_val(s[5])) as char] + p.0, p.1)),
                    None => None,
                }
            } else {
                None
            }
        } else {
            None
        }
    } else if (s[0] as u32) < 32 {
        None
    } else {
        match parse_string_rec(s.drop_first()) {
            Some(p) => Some((seq![s[0]] + p.0, p.1)),
            None => None,
        }
    }
}

/// Read an object's members: `s` stands just after the opening brace
/// and must end at the closing one.
pub open spec fn parse_members(s: Seq<char>) -> Option<Seq<(Seq<char>, Seq<char>)>>
    decreases s.len(),
{
    if s.len() == 0 {
        None
    } else if s[0] == '}' {
        if s.len() == 1 {
            Some(Seq::<(Seq<char>, Seq<char>)>::empty())
        } else {
            None
        }
    } else if s[0] != '"' {
        None
    } else {
        match parse_string_rec(s.drop_first()) {
            Some(pk) => {
                let k = pk.0;
                let r1 = pk.1;
                if r1.len() < 2 || r1[0] != ':' || r1[1] != '"' {
                    None
                } else {
                    match parse_string_rec(r1.skip(2)) {
                        Some(pv) => {
                            let v = pv.0;
                            let r2 = pv.1;
                            if r2.len() == 0 {
                                None
                            } else if r2[0] == '}' {
                                if r2.len() == 1 {
                                    Some(seq![(k, v)])
                                } else {
                                    None
                                }
                            } else if r2[0] == ',' && r2.drop_first().len() < s.len() {
                                match parse_members(r2.drop_first()) {
                                    Some(rest) => {
                                        if rest.len() > 0 {
                                            Some(seq![(k, v)] + rest)
                                        } else {
                                            None
                                        }
                                    },
                                    None => None,
                                }
                            } else {
                                None
                            }
                        },
                        None => None,
                    }
                }
            },
            None => None,
        }
    }
}

/// Read a whole JSON object of string members.
pub open spec fn parse_object(s: Seq<char>) -> Option<Seq<(Seq<char>, Seq<char>)>> {
    if s.len() == 0 || s[0] != '{' {
        None
    } else {
        parse_members(s.drop_first())
    }
}

/// Escaping a sequence with one more character escapes the sequence,
/// then the character.
proof fn lemma_escape_snoc(s: Seq<char>, c: char)
    ensures
        escape_seq(s.push(c)) == escape_seq(s) + escape_char(c),
    decreases s.len(),
{
    if s.len() == 0 {
        assert(s.push(c)[0] == c);
        assert(s.push(c).drop_first() =~= Seq::<char>::empty());
        assert(escape_seq(s.push(c).drop_first()) =~= Seq::<char>::empty());
        assert(escape_seq(s.push(c)) =~= escape_seq(s) + escape_char(c));
    } else {
        lemma_escape_snoc(s.drop_first(), c);
        assert(s.push(c).drop_first() =~= s.drop_first().push(c));
        assert(escape_seq(s.push(c)) =~= escape_seq(s) + escape_char(c));
    }
}

/// An object with one more member is the shorter object's members,
/// a comma when one is needed, and the new member.
proof fn lemma_members_snoc(entries: Seq<(Seq<char>, Seq<char>)>, kv: (Seq<char>, Seq<char>))
    ensures
        entries.len() == 0 ==> json_members(entries.push(kv)) == json_member(kv),
        entries.len() > 0 ==> json_members(entries.push(kv)) == json_members(entries) + seq![',']
            + json_member(kv),
    decreases entries.len(),
{
    if entries.len() == 0 {
        assert(entries.push(kv)[0] == kv);
    } else {
        lemma_members_snoc(entries.drop_first(), kv);
        assert(entries.push(kv).drop_first() =~= entries.drop_first().push(kv));
        if entries.len() == 1 {
            assert(json_members(entries.push(kv)) =~= json_members(entries) + seq![',']
                + json_member(kv));
        } else {
            assert(json_members(entries.push(kv)) =~= json_members(entries) + seq![',']
                + json_member(kv));
        }
    }
}

/// A hexadecimal digit character reads back as its value.
proof fn lemma_hex_digit(d: int)
    requires
        0 <= d < 16,
    ensures
        is_hex_char(hex_digit(d)),
        hex_val(hex_digit(d)) == d,
{
}

/// Reading an escaped sequence up to its closing quote yields the
/// sequence back, with the text after the quote untouched.
proof fn lemma_parse_escape(s: Seq<char>, rest: Seq<char>)
    ensures
        parse_string_rec(escape_seq(s) + seq!['"'] + rest) == Some((s, rest)),
    decreases s.len(),
{
    let t = escape_seq(s) + seq!['"'] + rest;
    if s.len() == 0 {
        assert(escape_seq(s) =~= Seq::<char>::empty());
        assert(t[0] == '"');
        assert(t.drop_first() =~= rest);
    } else {
        let c = s[0];
        let s1 = s.drop_first();
        lemma_parse_escape(s1, rest);
        let t1 = escape_seq(s1) + seq!['"'] + rest;
        assert(escape_seq(s) == escape_char(c) + escape_seq(s1));
        if c == '"' {
            assert(t =~= seq!['\\', '"'] + t1);
            assert(t[0] == '\\' && t[1] == '"');
            assert(t.skip(2) =~= t1);
            assert(seq![t[1]] + s1 =~= s);
        } else if c == '\\' {
            assert(t =~= seq!['\\', '\\'] + t1);
            assert(t[0] == '\\' && t[1] == '\\');
            assert(t.skip(2) =~= t1);
            assert(seq![t[1]] + s1 =~= s);
        } else if (c as u32) < 32 {
            let u: int = (c as u32) as int;
            let hi = u / 16;
            let lo = u % 16;
            assert(0 <= u < 32);
            vstd::arithmetic::div_mod::lemma_fundamental_div_mod(u, 16);
            vstd::arithmetic::div_mod::lemma_mod_pos_bound(u, 16);
            assert(0 <= hi < 2) by (nonlinear_arith)
                requires
                    hi == u / 16,
                    0 <= u < 32,
            ;
            lemma_hex_digit(hi);
            lemma_hex_digit(lo);
            assert(t =~= seq!['\\', 'u', '0', '0', hex_digit(hi), hex_digit(lo)] + t1);
            assert(t[0] == '\\' && t[1] == 'u' && t[2] == '0' && t[3] == '0');
            assert(16 * hex_val(t[4]) + hex_val(t[5]) == u);
            vstd::utf8::char_u32_cast(c, c as u32);
            assert((u as char) == c);
            assert(t.skip(6) =~= t1);
            assert(seq![c] + s1 =~= s);
        } else {
            assert(t =~= seq![c] + t1);
            assert(t[0] == c);
            assert(t.drop_first() =~= t1);
            assert(seq![c] + s1 =~= s);
        }
    }
}

/// A rendered member list always opens with a quote.
proof fn lemma_member_starts(kv: (Seq<char>, Seq<char>))
    ensures
        json_member(kv).len() >= 5,
        json_member(kv)[0] == '"',
{
    assert(json_member(kv)[0] == json_string(kv.0)[0]);
    assert(json_string(kv.0)[0] == '"');
}

/// Reading rendered members back, up to the closing brace, yields the
/// entries they were rendered from.
proof fn lemma_parse_members_round_trip(entries: Seq<(Seq<char>, Seq<char>)>)
    ensures
        parse_members(json_members(entries) + seq!['}']) == Some(entries),
    decreases entries.len(),
{
    let t = json_members(entries) + seq!['}'];
    if entries.len() == 0 {
        assert(json_members(entries) =~= Seq::<char>::empty());
        assert(t =~= seq!['}']);
        assert(parse_members(t) == Some(Seq::<(Seq<char>, Seq<char>)>::empty()));
        assert(entries =~= Seq::<(Seq<char>, Seq<char>)>::empty());
    } else {
        let kv = entries[0];
        let k = kv.0;
        let v = kv.1;
        lemma_member_starts(kv);
        if entries.len() == 1 {
            let rest1 = seq![':'] + json_string(v) + seq!['}'];
            assert(t[0] == '"');
            assert(t.drop_first() =~= escape_seq(k) + seq!['"'] + rest1);
            lemma_parse_escape(k, rest1);
            assert(rest1[0] == ':' && rest1[1] == '"');
            assert(rest1.skip(2) =~= escape_seq(v) + seq!['"'] + seq!['}']);
            lemma_parse_escape(v, seq!['}']);
            assert(parse_members(t) == Some(seq![(k, v)]));
            assert(seq![(k, v)] =~= entries);
        } else {
            let e1 = entries.drop_first();
            lemma_parse_members_round_trip(e1);
            let tail = seq![','] + json_members(e1) + seq!['}'];
            let rest1 = seq![':'] + json_string(v) + tail;
            assert(t =~= json_member(kv) + tail);
            assert(t[0] == '"');
            assert(t.drop_first() =~= escape_seq(k) + seq!['"'] + rest1);
            lemma_parse_escape(k, rest1);
            assert(rest1[0] == ':' && rest1[1] == '"');
            assert(rest1.skip(2) =~= escape_seq(v) + seq!['"'] + tail);
            lemma_parse_escape(v, tail);
            assert(tail[0] == ',');
            assert(tail.drop_first() =~= json_members(e1) + seq!['}']);
            assert(tail.drop_first().len() < t.len());
            assert(e1.len() > 0);
            assert(parse_members(t) == Some(seq![(k, v)] + e1));
            assert(seq![(k, v)] + e1 =~= entries);
        }
    }
}

/// Reading a rendered object back yields exactly the entries it was
/// rendered from: encoding loses nothing and invents nothing.
pub proof fn lemma_json_round_trip(entries: Seq<(Seq<char>, Seq<char>)>)
    ensures
        parse_object(json_object(entries)) == Some(entries),
{
    let t = json_object(entries);
    assert(t[0] == '{');
    assert(t.drop_first() =~= json_members(entries) + seq!['}']);
    lemma_parse_members_round_trip(entries);
}

/// Append `s`, quoted and escaped, to `out`.
fn push_json_string(out: &mut Vec<char>, s: &str)
    ensures
        final(out)@ == old(out)@ + json_string(s@),
{
    out.push('"');
    let len = s.unicode_len();
    let mut i: usize = 0;
    while i < len
        invariant
            i <= len,
            len == s@.len(),
            out@ == old(out)@ + seq!['"'] + escape_seq(s@.subrange(0, i as int)),
        decreases len - i,
    {
        let c = s.get_char(i);
        if c == '"' {
            out.push('\\');
            out.push('"');
        } else if c == '\\' {
            out.push('\\');
            out.push('\\');
        } else if (c as u32) < 32 {
            let v = c as u8;
            out.push('\\');
            out.push('u');
            out.push('0');
            out.push('0');
            let hi = v / 16;
            let lo = v % 16;
            out.push(
                if hi < 10 {
                    (48 + hi) as char
                } else {
                    (87 + hi) as char
                },
            );
            out.push(
                if lo < 10 {
                    (48 + lo) as char
                } else {
                    (87 + lo) as char
                },
            );
        } else {
            out.push(c);
        }
        proof {
            lemma_escape_snoc(s@.subrange(0, i as int), s@[i as int]);
            assert(s@.subrange(0, i as int).push(s@[i as int]) =~= s@.subrange(0, i as int + 1));
            assert(out@ =~= old(out)@ + seq!['"'] + escape_seq(s@.subrange(0, i as int + 1)));
        }
        i = i + 1;
    }
    out.push('"');
    proof {
        assert(s@.subrange(0, len as int) =~= s@);
        assert(out@ =~= old(out)@ + json_string(s@));
    }
}

/// Render the whole header mapping as a JSON object, entries in
/// order.
pub fn json_of_headers(h: &HeaderMap) -> (r: String)
    ensures
        r@ == json_object(h@),
{
    let mut out: Vec<char> = Vec::new();
    out.push('{');
    let n = h.len();
    let mut i: usize = 0;
    while i < n
        invariant
            i <= n,
            n == h@.len(),
            out@ == seq!['{'] + json_members(h@.subrange(0, i as int)),
        decreases n - i,
    {
        if i > 0 {
            out.push(',');
        }
        push_json_string(&mut out, h.key_at(i).as_str());
        out.push(':');
        push_json_string(&mut out, h.value_at(i).as_str());
        proof {
            lemma_members_snoc(h@.subrange(0, i as int), h@[i as int]);
            assert(h@.subrange(0, i as int).push(h@[i as int]) =~= h@.subrange(0, i as int + 1));
            assert(out@ =~= seq!['{'] + json_members(h@.subrange(0, i as int + 1)));
        }
        i = i + 1;
    }
    out.push('}');
    proof {
        assert(h@.subrange(0, n as int) =~= h@);
        assert(out@ =~= json_object(h@));
    }
    crate::text::string_from_chars(&out)
}

} // verus!
