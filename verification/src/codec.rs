//! Canonical serialization of the repository's records.
//!
//! The staging area and commits are persisted as JSON objects with a fixed
//! field order and sorted keys, so every record has exactly one encoding
//! and the digest of a commit is well defined. Encoding and decoding are
//! written here over character sequences, with the decoder proved to accept
//! exactly what the encoder produces (see the round-trip lemmas).
use vstd::prelude::*;
use vstd::string::StringExecFns;
use crate::strmap::{PairSeq, StrMap, sorted_pairs};
use crate::lexord::{lex_lt, str_lt};

verus! {

/// The hexadecimal digit character for a value below 16, lower case.
pub open spec fn hex_digit(d: int) -> char {
    if d < 10 {
        (48 + d) as char
    } else {
        (87 + d) as char
    }
}

/// The decimal digit character for a value below 10.
pub open spec fn digit_char(d: int) -> char {
    (48 + d) as char
}

/// How one character appears inside a quoted JSON string: quote and
/// backslash get a two-character escape, the five named control characters
/// their short forms, any other control character a `\u00..` escape, and
/// everything else stands as itself.
pub open spec fn esc_char(c: char) -> Seq<char> {
    if c == '"' {
        seq!['\\', '"']
    } else if c == '\\' {
        seq!['\\', '\\']
    } else if c == '\x08' {
        seq!['\\', 'b']
    } else if c == '\x0c' {
        seq!['\\', 'f']
    } else if c == '\n' {
        seq!['\\', 'n']
    } else if c == '\r' {
        seq!['\\', 'r']
    } else if c == '\t' {
        seq!['\\', 't']
    } else if (c as int) < 32 {
        seq!['\\', 'u', '0', '0', hex_digit((c as int) / 16), hex_digit((c as int) % 16)]
    } else {
        seq![c]
    }
}

/// A string body, escaped character by character.
pub open spec fn esc(s: Seq<char>) -> Seq<char>
    decreases s.len(),
{
    if s.len() == 0 {
        Seq::<char>::empty()
    } else {
        esc_char(s[0]) + esc(s.drop_first())
    }
}

/// A quoted JSON string.
pub open spec fn json_string(s: Seq<char>) -> Seq<char> {
    seq!['"'] + esc(s) + seq!['"']
}

/// The decimal digits of a number, most significant first.
pub open spec fn dec_digits(n: nat) -> Seq<char>
    decreases n,
{
    if n < 10 {
        seq![digit_char(n as int)]
    } else {
        dec_digits(n / 10).push(digit_char((n % 10) as int))
    }
}

/// A signed decimal integer.
pub open spec fn enc_i64(v: int) -> Seq<char> {
    if v < 0 {
        seq!['-'] + dec_digits((-v) as nat)
    } else {
        dec_digits(v as nat)
    }
}

/// One `"key":"value"` member.
pub open spec fn enc_entry(p: (Seq<char>, Seq<char>)) -> Seq<char> {
    json_string(p.0) + seq![':'] + json_string(p.1)
}

/// Everything after the opening brace of an object: either the closing
/// brace alone, or the first member followed by the remaining members.
pub open spec fn enc_items(s: PairSeq) -> Seq<char>
    decreases s.len(),
{
    if s.len() == 0 {
        seq!['}']
    } else {
        enc_entry(s[0]) + enc_rest(s.drop_first())
    }
}

/// The members after the first, each preceded by a comma, then the brace.
pub open spec fn enc_rest(s: PairSeq) -> Seq<char>
    decreases s.len(),
{
    if s.len() == 0 {
        seq!['}']
    } else {
        seq![','] + enc_entry(s[0]) + enc_rest(s.drop_first())
    }
}

/// A whole JSON object with the given members in order.
pub open spec fn enc_map(s: PairSeq) -> Seq<char> {
    seq!['{'] + enc_items(s)
}

/// The canonical form of a staging area: its add-set then its remove-set.
pub open spec fn enc_staging(staged: PairSeq, deleted: PairSeq) -> Seq<char> {
    "{\"staged\":"@ + enc_map(staged) + ",\"deleted\":"@ + enc_map(deleted) + seq!['}']
}

/// The canonical form of a commit record.
pub open spec fn enc_commit(
    message: Seq<char>,
    date_time: int,
    blobs: PairSeq,
    parent: Seq<char>,
) -> Seq<char> {
    "{\"meta\":{\"message\":"@ + json_string(message) + ",\"date_time\":"@ + enc_i64(date_time)
        + "},\"blobs\":"@ + enc_map(blobs) + ",\"parent\":"@ + json_string(parent) + seq!['}']
}

/// The hexadecimal digit character, executable form.
fn hex_char(d: u8) -> (c: char)
    requires
        d < 16,
    ensures
        c == hex_digit(d as int),
{
    match d {
        0 => '0',
        1 => '1',
        2 => '2',
        3 => '3',
        4 => '4',
        5 => '5',
        6 => '6',
        7 => '7',
        8 => '8',
        9 => '9',
        10 => 'a',
        11 => 'b',
        12 => 'c',
        13 => 'd',
        14 => 'e',
        _ => 'f',
    }
}

/// Appends the quoted, escaped form of `s` to `out`.
pub fn write_json_string(out: &mut String, s: &str)
    ensures
        final(out)@ == old(out)@ + json_string(s@),
{
    let ghost target = old(out)@ + json_string(s@);
    out.push('"');
    let n = s.unicode_len();
    let mut i: usize = 0;
    proof {
        assert(s@.skip(0) =~= s@);
        assert(target =~= out@ + esc(s@.skip(0)) + seq!['"']);
    }
    while i < n
        invariant
            n == s@.len(),
            i <= n,
            target == out@ + esc(s@.skip(i as int)) + seq!['"'],
        decreases n - i,
    {
        let ghost pre = out@;
        let ghost rem = s@.skip(i as int);
        proof {
            assert(rem.len() > 0);
            assert(rem[0] == s@[i as int]);
            assert(rem.drop_first() =~= s@.skip(i as int + 1));
        }
        let c = s.get_char(i);
        if c == '"' {
            out.push('\\');
            out.push('"');
        } else if c == '\\' {
            out.push('\\');
            out.push('\\');
        } else if c == '\x08' {
            out.push('\\');
            out.push('b');
        } else if c == '\x0c' {
            out.push('\\');
            out.push('f');
        } else if c == '\n' {
            out.push('\\');
            out.push('n');
        } else if c == '\r' {
            out.push('\\');
            out.push('r');
        } else if c == '\t' {
            out.push('\\');
            out.push('t');
        } else if (c as u32) < 32 {
            let v = c as u32;
            proof {
                assert(v < 32);
                assert(v as int == c as int);
            }
            out.push('\\');
            out.push('u');
            out.push('0');
            out.push('0');
            out.push(hex_char((v / 16) as u8));
            out.push(hex_char((v % 16) as u8));
        } else {
            out.push(c);
        }
        proof {
            assert(out@ =~= pre + esc_char(c));
            assert(esc(rem) =~= esc_char(c) + esc(rem.drop_first()));
            assert(pre + (esc_char(c) + esc(s@.skip(i as int + 1))) + seq!['"'] =~= (pre + esc_char(
                c,
            )) + esc(s@.skip(i as int + 1)) + seq!['"']);
        }
        i = i + 1;
    }
    proof {
        assert(s@.skip(n as int) =~= Seq::<char>::empty());
        assert(esc(s@.skip(n as int)) =~= Seq::<char>::empty());
        assert(target =~= out@ + seq!['"']);
    }
    out.push('"');
}

/// Index-reversal of a character sequence.
pub open spec fn rev_chars(s: Seq<char>) -> Seq<char> {
    Seq::new(s.len(), |j: int| s[s.len() - 1 - j])
}

/// Appends the decimal digits of `n` to `out`.
pub fn write_u64_dec(out: &mut String, n: u64)
    ensures
        final(out)@ == old(out)@ + dec_digits(n as nat),
{
    let mut buf: Vec<char> = Vec::new();
    let mut m: u64 = n;
    proof {
        assert(dec_digits(n as nat) =~= dec_digits(m as nat) + rev_chars(buf@));
    }
    loop
        invariant_except_break
            dec_digits(n as nat) == dec_digits(m as nat) + rev_chars(buf@),
        ensures
            dec_digits(n as nat) == rev_chars(buf@),
        decreases m,
    {
        let ghost m0 = m;
        let ghost buf0 = buf@;
        let d: u8 = (m % 10) as u8;
        let dc = hex_char(d);
        buf.push(dc);
        m = m / 10;
        proof {
            assert(dc == digit_char(d as int));
            assert(rev_chars(buf@) =~= seq![dc] + rev_chars(buf0));
            if m0 < 10 {
                assert(dec_digits(m0 as nat) =~= seq![dc]);
                assert(dec_digits(m0 as nat) + rev_chars(buf0) =~= seq![dc] + rev_chars(buf0));
            } else {
                assert(dec_digits(m0 as nat) == dec_digits((m0 / 10) as nat).push(dc));
                assert(dec_digits((m0 / 10) as nat).push(dc) + rev_chars(buf0) =~= dec_digits(
                    (m0 / 10) as nat,
                ) + (seq![dc] + rev_chars(buf0)));
            }
        }
        if m == 0 {
            proof {
                assert(m0 < 10);
                assert(dec_digits(n as nat) =~= rev_chars(buf@));
            }
            break ;
        }
    }
    // buf now holds the digits, least significant first
    let ghost whole = dec_digits(n as nat);
    let mut j: usize = buf.len();
    let ghost start = out@;
    while j > 0
        invariant
            j <= buf@.len(),
            out@ == start + rev_chars(buf@).take(buf@.len() - j),
        decreases j,
    {
        let ghost pre = out@;
        j = j - 1;
        out.push(buf[j]);
        proof {
            assert(rev_chars(buf@)[buf@.len() - 1 - j] == buf@[j as int]);
            assert(out@ =~= start + rev_chars(buf@).take(buf@.len() - j));
        }
    }
    proof {
        assert(rev_chars(buf@).take(buf@.len() as int) =~= rev_chars(buf@));
    }
}

/// Appends the signed decimal form of `v` to `out`.
pub fn write_i64_dec(out: &mut String, v: i64)
    ensures
        final(out)@ == old(out)@ + enc_i64(v as int),
{
    if v >= 0 {
        write_u64_dec(out, v as u64);
    } else {
        out.push('-');
        let mag: u64 = if v == i64::MIN {
            9223372036854775808u64
        } else {
            (-v) as u64
        };
        let ghost mid = out@;
        write_u64_dec(out, mag);
        proof {
            assert(mag as nat == (-(v as int)) as nat);
            assert(out@ =~= old(out)@ + (seq!['-'] + dec_digits((-(v as int)) as nat)));
        }
    }
}

/// Appends the JSON object holding the entries of `m`, in order.
pub fn write_map(out: &mut String, m: &StrMap)
    ensures
        final(out)@ == old(out)@ + enc_map(m.pair_seq()),
{
    let ghost ps = m.pair_seq();
    let ghost target = old(out)@ + enc_map(ps);
    out.push('{');
    let n = m.len();
    if n == 0 {
        out.push('}');
        proof {
            assert(enc_items(ps) =~= seq!['}']);
            assert(out@ =~= target);
        }
        return ;
    }
    write_json_string(out, m.key_at(0).as_str());
    out.push(':');
    write_json_string(out, m.val_at(0).as_str());
    proof {
        assert(ps.drop_first() =~= ps.skip(1));
        assert(target =~= out@ + enc_rest(ps.skip(1))) by {
            assert(enc_entry(ps[0]) =~= json_string(ps[0].0) + seq![':'] + json_string(ps[0].1));
            assert(old(out)@ + (seq!['{'] + (enc_entry(ps[0]) + enc_rest(ps.drop_first())))
                =~= ((((old(out)@ + seq!['{']) + json_string(ps[0].0)).push(':')) + json_string(
                ps[0].1,
            )) + enc_rest(ps.drop_first()));
            assert(out@ =~= (((old(out)@ + seq!['{']) + json_string(ps[0].0)).push(':'))
                + json_string(ps[0].1));
        }
    }
    let mut i: usize = 1;
    while i < n
        invariant
            n == ps.len(),
            1 <= i <= n,
            ps == m.pair_seq(),
            target == out@ + enc_rest(ps.skip(i as int)),
        decreases n - i,
    {
        let ghost pre = out@;
        let ghost rem = ps.skip(i as int);
        out.push(',');
        write_json_string(out, m.key_at(i).as_str());
        out.push(':');
        write_json_string(out, m.val_at(i).as_str());
        proof {
            assert(rem.len() > 0);
            assert(rem[0] == ps[i as int]);
            assert(rem.drop_first() =~= ps.skip(i as int + 1));
            assert(enc_rest(rem) == seq![','] + enc_entry(rem[0]) + enc_rest(rem.drop_first()));
            assert(out@ =~= pre.push(',') + json_string(ps[i as int].0) + seq![':'] + json_string(
                ps[i as int].1,
            ));
            assert(pre + enc_rest(rem) =~= out@ + enc_rest(ps.skip(i as int + 1)));
        }
        i = i + 1;
    }
    out.push('}');
    proof {
        assert(ps.skip(n as int) =~= Seq::<(Seq<char>, Seq<char>)>::empty());
        assert(enc_rest(ps.skip(n as int)) =~= seq!['}']);
        assert(out@ =~= target);
    }
}

/// The canonical text of a staging area.
pub fn encode_staging_area(staged: &StrMap, deleted: &StrMap) -> (r: String)
    ensures
        r@ == enc_staging(staged.pair_seq(), deleted.pair_seq()),
{
    let mut out = String::from_str("{\"staged\":");
    write_map(&mut out, staged);
    out.append(",\"deleted\":");
    write_map(&mut out, deleted);
    out.push('}');
    proof {
        assert(out@ =~= enc_staging(staged.pair_seq(), deleted.pair_seq()));
    }
    out
}

/// The canonical text of a commit record.
pub fn encode_commit_parts(message: &str, date_time: i64, blobs: &StrMap, parent: &str) -> (r:
    String)
    ensures
        r@ == enc_commit(message@, date_time as int, blobs.pair_seq(), parent@),
{
    let mut out = String::from_str("{\"meta\":{\"message\":");
    write_json_string(&mut out, message);
    out.append(",\"date_time\":");
    write_i64_dec(&mut out, date_time);
    out.append("},\"blobs\":");
    write_map(&mut out, blobs);
    out.append(",\"parent\":");
    write_json_string(&mut out, parent);
    out.push('}');
    proof {
        assert(out@ =~= enc_commit(message@, date_time as int, blobs.pair_seq(), parent@));
    }
    out
}

/// A decimal digit character.
pub open spec fn is_dec(c: char) -> bool {
    48 <= c as int && c as int <= 57
}

/// A lower-case hexadecimal digit character.
pub open spec fn is_hex(c: char) -> bool {
    is_dec(c) || (97 <= c as int && c as int <= 102)
}

/// The value of a hexadecimal digit character.
pub open spec fn hex_val(c: char) -> int {
    if c as int <= 57 {
        c as int - 48
    } else {
        c as int - 87
    }
}

/// The character a short escape stands for.
pub open spec fn unesc(e: char) -> char {
    if e == '"' {
        '"'
    } else if e == '\\' {
        '\\'
    } else if e == '/' {
        '/'
    } else if e == 'b' {
        '\x08'
    } else if e == 'f' {
        '\x0c'
    } else if e == 'n' {
        '\n'
    } else if e == 'r' {
        '\r'
    } else {
        '\t'
    }
}

/// Reads a string body from position `i` up to and including the closing
/// quote, undoing escapes; yields the characters read and the position
/// after the quote. Raw control characters and malformed escapes fail.
pub open spec fn sp_str_body(s: Seq<char>, i: int) -> Option<(Seq<char>, int)>
    decreases s.len() - i,
{
    if i < 0 || i >= s.len() {
        None
    } else if s[i] == '"' {
        Some((Seq::<char>::empty(), i + 1))
    } else if s[i] == '\\' {
        if i + 1 >= s.len() {
            None
        } else {
            let e = s[i + 1];
            if e == 'u' {
                if i + 6 <= s.len() && is_hex(s[i + 2]) && is_hex(s[i + 3]) && is_hex(s[i + 4])
                    && is_hex(s[i + 5]) {
                    let v = 4096 * hex_val(s[i + 2]) + 256 * hex_val(s[i + 3]) + 16 * hex_val(
                        s[i + 4],
                    ) + hex_val(s[i + 5]);
                    if v < 0xD800 || v >= 0xE000 {
                        match sp_str_body(s, i + 6) {
                            Some(t) => Some((seq![v as char] + t.0, t.1)),
                            None => None,
                        }
                    } else {
                        None
                    }
                } else {
                    None
                }
            } else if e == '"' || e == '\\' || e == '/' || e == 'b' || e == 'f' || e == 'n' || e
                == 'r' || e == 't' {
                match sp_str_body(s, i + 2) {
                    Some(t) => Some((seq![unesc(e)] + t.0, t.1)),
                    None => None,
                }
            } else {
                None
            }
        }
    } else if (s[i] as int) < 32 {
        None
    } else {
        match sp_str_body(s, i + 1) {
            Some(t) => Some((seq![s[i]] + t.0, t.1)),
            None => None,
        }
    }
}

pub proof fn lemma_sp_str_body_bounds(s: Seq<char>, i: int)
    ensures
        match sp_str_body(s, i) {
            Some(t) => i < t.1 <= s.len(),
            None => true,
        },
    decreases s.len() - i,
{
    if 0 <= i < s.len() {
        lemma_sp_str_body_bounds(s, i + 1);
        if i + 2 <= s.len() {
            lemma_sp_str_body_bounds(s, i + 2);
        }
        if i + 6 <= s.len() {
            lemma_sp_str_body_bounds(s, i + 6);
        }
    }
}

/// Reads a quoted string starting at `i`.
pub open spec fn sp_string(s: Seq<char>, i: int) -> Option<(Seq<char>, int)> {
    if 0 <= i < s.len() && s[i] == '"' {
        sp_str_body(s, i + 1)
    } else {
        None
    }
}

pub proof fn lemma_sp_string_bounds(s: Seq<char>, i: int)
    ensures
        match sp_string(s, i) {
            Some(t) => i + 1 < t.1 <= s.len(),
            None => true,
        },
{
    lemma_sp_str_body_bounds(s, i + 1);
}

/// Reads a digit run, accumulating its value; fails as soon as the value
/// would pass `bound`; stops before the first non-digit.
pub open spec fn sp_digits(s: Seq<char>, i: int, acc: int, bound: int) -> Option<(int, int)>
    decreases s.len() - i,
{
    if 0 <= i && i < s.len() && is_dec(s[i]) {
        if acc * 10 + (s[i] as int - 48) > bound {
            None
        } else {
            sp_digits(s, i + 1, acc * 10 + (s[i] as int - 48), bound)
        }
    } else {
        Some((acc, i))
    }
}

/// Reads a signed decimal integer that fits a 64-bit signed value.
pub open spec fn sp_i64(s: Seq<char>, i: int) -> Option<(int, int)> {
    if 0 <= i < s.len() && s[i] == '-' {
        if i + 1 < s.len() && is_dec(s[i + 1]) {
            match sp_digits(s, i + 1, 0, 0x8000000000000000) {
                Some(t) => Some((-t.0, t.1)),
                None => None,
            }
        } else {
            None
        }
    } else if 0 <= i < s.len() && is_dec(s[i]) {
        sp_digits(s, i, 0, 0x7FFFFFFFFFFFFFFF)
    } else {
        None
    }
}

/// Reads one `"key":"value"` member.
pub open spec fn sp_entry(s: Seq<char>, i: int) -> Option<((Seq<char>, Seq<char>), int)> {
    match sp_string(s, i) {
        None => None,
        Some(k) => if k.1 < s.len() && s[k.1] == ':' {
            match sp_string(s, k.1 + 1) {
                None => None,
                Some(v) => Some(((k.0, v.0), v.1)),
            }
        } else {
            None
        },
    }
}

pub proof fn lemma_sp_entry_bounds(s: Seq<char>, i: int)
    ensures
        match sp_entry(s, i) {
            Some(t) => i + 3 < t.1 <= s.len(),
            None => true,
        },
{
    lemma_sp_string_bounds(s, i);
    if sp_string(s, i) is Some {
        let k = sp_string(s, i)->Some_0;
        lemma_sp_string_bounds(s, k.1 + 1);
    }
}

/// Reads the members after the first one, each preceded by a comma, up to
/// the closing brace; keys must strictly increase, `prev` being the key
/// before this point.
pub open spec fn sp_map_tail(s: Seq<char>, i: int, prev: Seq<char>) -> Option<(PairSeq, int)>
    decreases s.len() - i,
{
    if i < 0 || i >= s.len() {
        None
    } else if s[i] == '}' {
        Some((Seq::<(Seq<char>, Seq<char>)>::empty(), i + 1))
    } else if s[i] == ',' {
        match sp_entry(s, i + 1) {
            None => None,
            Some(p) => if lex_lt(prev, p.0.0) {
                proof {
                    lemma_sp_entry_bounds(s, i + 1);
                }
                match sp_map_tail(s, p.1, p.0.0) {
                    None => None,
                    Some(r) => Some((seq![p.0] + r.0, r.1)),
                }
            } else {
                None
            },
        }
    } else {
        None
    }
}

/// Reads a whole object with strictly increasing keys.
pub open spec fn sp_map(s: Seq<char>, i: int) -> Option<(PairSeq, int)> {
    if 0 <= i < s.len() && s[i] == '{' {
        if i + 1 < s.len() && s[i + 1] == '}' {
            Some((Seq::<(Seq<char>, Seq<char>)>::empty(), i + 2))
        } else {
            match sp_entry(s, i + 1) {
                None => None,
                Some(p) => match sp_map_tail(s, p.1, p.0.0) {
                    None => None,
                    Some(r) => Some((seq![p.0] + r.0, r.1)),
                },
            }
        }
    } else {
        None
    }
}

/// Reads a whole staging-area record; the text must hold exactly one.
pub open spec fn sp_staging(s: Seq<char>) -> Option<(PairSeq, PairSeq)> {
    let p1 = "{\"staged\":"@;
    let p2 = ",\"deleted\":"@;
    if s.len() >= p1.len() && s.subrange(0, p1.len() as int) == p1 {
        match sp_map(s, p1.len() as int) {
            None => None,
            Some(st) => if st.1 + p2.len() <= s.len() && s.subrange(st.1, st.1 + p2.len()) == p2 {
                match sp_map(s, st.1 + p2.len()) {
                    None => None,
                    Some(dl) => if dl.1 + 1 == s.len() && s[dl.1] == '}' {
                        Some((st.0, dl.0))
                    } else {
                        None
                    },
                }
            } else {
                None
            },
        }
    } else {
        None
    }
}

/// Reads a whole commit record; the text must hold exactly one.
pub open spec fn sp_commit(s: Seq<char>) -> Option<(Seq<char>, int, PairSeq, Seq<char>)> {
    let p1 = "{\"meta\":{\"message\":"@;
    let p2 = ",\"date_time\":"@;
    let p3 = "},\"blobs\":"@;
    let p4 = ",\"parent\":"@;
    if s.len() >= p1.len() && s.subrange(0, p1.len() as int) == p1 {
        match sp_string(s, p1.len() as int) {
            None => None,
            Some(ms) => if ms.1 + p2.len() <= s.len() && s.subrange(ms.1, ms.1 + p2.len()) == p2 {
                match sp_i64(s, ms.1 + p2.len()) {
                    None => None,
                    Some(dt) => if dt.1 + p3.len() <= s.len() && s.subrange(dt.1, dt.1 + p3.len())
                        == p3 {
                        match sp_map(s, dt.1 + p3.len()) {
                            None => None,
                            Some(bl) => if bl.1 + p4.len() <= s.len() && s.subrange(
                                bl.1,
                                bl.1 + p4.len(),
                            ) == p4 {
                                match sp_string(s, bl.1 + p4.len()) {
                                    None => None,
                                    Some(pr) => if pr.1 + 1 == s.len() && s[pr.1] == '}' {
                                        Some((ms.0, dt.0, bl.0, pr.0))
                                    } else {
                                        None
                                    },
                                }
                            } else {
                                None
                            },
                        }
                    } else {
                        None
                    },
                }
            } else {
                None
            },
        }
    } else {
        None
    }
}

/// Decides `is_hex` on a character.
fn is_hex_exec(c: char) -> (r: bool)
    ensures
        r == is_hex(c),
{
    let v = c as u32;
    (48 <= v && v <= 57) || (97 <= v && v <= 102)
}

/// The value of a hexadecimal digit, executable form.
fn hex_val_exec(c: char) -> (r: u8)
    requires
        is_hex(c),
    ensures
        r as int == hex_val(c),
        r < 16,
{
    let v = c as u32;
    if v <= 57 {
        (v - 48) as u8
    } else {
        (v - 87) as u8
    }
}

/// Reads a quoted string starting at `i`, as `sp_string` describes.
pub fn p_string(s: &str, i: usize) -> (r: Option<(String, usize)>)
    ensures
        match r {
            Some(t) => sp_string(s@, i as int) == Some((t.0@, t.1 as int)) && i + 1 < t.1 <= s@.len(),
            None => sp_string(s@, i as int) is None,
        },
{
    proof {
        lemma_sp_str_body_bounds(s@, i + 1);
    }
    let n = s.unicode_len();
    if i >= n {
        return None;
    }
    if s.get_char(i) != '"' {
        return None;
    }
    let mut out = String::new();
    let mut j: usize = i + 1;
    proof {
        match sp_str_body(s@, i as int + 1) {
            Some(t) => {
                assert(out@ + t.0 =~= t.0);
            },
            None => {},
        }
    }
    loop
        invariant
            n == s@.len(),
            i < n && s@[i as int] == '"',
            i + 1 <= j <= n,
            (match sp_str_body(s@, j as int) {
                Some(t) => sp_str_body(s@, i as int + 1) == Some((out@ + t.0, t.1)),
                None => sp_str_body(s@, i as int + 1) is None,
            }),
        decreases n - j,
    {
        if j >= n {
            return None;
        }
        let ghost j0 = j as int;
        let ghost out0 = out@;
        let c = s.get_char(j);
        if c == '"' {
            proof {
                assert(sp_str_body(s@, j0) == Some((Seq::<char>::empty(), j0 + 1)));
                assert(out@ + Seq::<char>::empty() =~= out@);
                lemma_sp_str_body_bounds(s@, i as int + 1);
            }
            return Some((out, j + 1));
        }
        if c == '\\' {
            if n - j < 2 {
                return None;
            }
            let e = s.get_char(j + 1);
            if e == 'u' {
                if n - j < 6 {
                    return None;
                }
                let h2 = s.get_char(j + 2);
                let h3 = s.get_char(j + 3);
                let h4 = s.get_char(j + 4);
                let h5 = s.get_char(j + 5);
                if !(is_hex_exec(h2) && is_hex_exec(h3) && is_hex_exec(h4) && is_hex_exec(h5)) {
                    return None;
                }
                let v: u32 = 4096 * (hex_val_exec(h2) as u32) + 256 * (hex_val_exec(h3) as u32)
                    + 16 * (hex_val_exec(h4) as u32) + (hex_val_exec(h5) as u32);
                proof {
                    assert(v as int == 4096 * hex_val(s@[j0 + 2]) + 256 * hex_val(s@[j0 + 3]) + 16
                        * hex_val(s@[j0 + 4]) + hex_val(s@[j0 + 5]));
                    assert(v < 0x10000);
                }
                if 0xD800 <= v && v < 0xE000 {
                    return None;
                }
                match char::from_u32(v) {
                    Some(ch) => {
                        proof {
                            assert(ch as u32 == v);
                            vstd::utf8::char_u32_cast(ch, v);
                            assert((v as char) == ch);
                            assert(ch == (v as int) as char);
                        }
                        out.push(ch);
                        j = j + 6;
                        proof {
                            match sp_str_body(s@, j as int) {
                                Some(t) => {
                                    assert(sp_str_body(s@, j0) == Some((seq![ch] + t.0, t.1)));
                                    assert(out0 + (seq![ch] + t.0) =~= out@ + t.0);
                                },
                                None => {
                                    assert(sp_str_body(s@, j0) is None);
                                },
                            }
                        }
                    },
                    None => {
                        proof {
                            assert(false);
                        }
                        return None;
                    },
                }
            } else if e == '"' || e == '\\' || e == '/' || e == 'b' || e == 'f' || e == 'n' || e
                == 'r' || e == 't' {
                let ch = if e == '"' {
                    '"'
                } else if e == '\\' {
                    '\\'
                } else if e == '/' {
                    '/'
                } else if e == 'b' {
                    '\x08'
                } else if e == 'f' {
                    '\x0c'
                } else if e == 'n' {
                    '\n'
                } else if e == 'r' {
                    '\r'
                } else {
                    '\t'
                };
                proof {
                    assert(ch == unesc(e));
                }
                out.push(ch);
                j = j + 2;
                proof {
                    match sp_str_body(s@, j as int) {
                        Some(t) => {
                            assert(sp_str_body(s@, j0) == Some((seq![ch] + t.0, t.1)));
                            assert(out0 + (seq![ch] + t.0) =~= out@ + t.0);
                        },
                        None => {
                            assert(sp_str_body(s@, j0) is None);
                        },
                    }
                }
            } else {
                return None;
            }
        } else if (c as u32) < 32 {
            return None;
        } else {
            out.push(c);
            j = j + 1;
            proof {
                match sp_str_body(s@, j as int) {
                    Some(t) => {
                        assert(sp_str_body(s@, j0) == Some((seq![c] + t.0, t.1)));
                        assert(out0 + (seq![c] + t.0) =~= out@ + t.0);
                    },
                    None => {
                        assert(sp_str_body(s@, j0) is None);
                    },
                }
            }
        }
    }
}

/// Reads a digit run from `i` with accumulator bound `bound`.
fn p_digits(s: &str, i: usize, bound: u64) -> (r: Option<(u64, usize)>)
    requires
        i <= s@.len(),
        bound >= 9,
    ensures
        match r {
            Some(t) => sp_digits(s@, i as int, 0, bound as int) == Some((t.0 as int, t.1 as int))
                && i <= t.1 <= s@.len() && t.0 <= bound,
            None => sp_digits(s@, i as int, 0, bound as int) is None,
        },
{
    let n = s.unicode_len();
    let mut acc: u64 = 0;
    let mut j: usize = i;
    loop
        invariant
            n == s@.len(),
            i <= j <= n,
            acc <= bound,
            bound >= 9,
            sp_digits(s@, i as int, 0, bound as int) == sp_digits(
                s@,
                j as int,
                acc as int,
                bound as int,
            ),
        decreases n - j,
    {
        if j >= n {
            return Some((acc, j));
        }
        let c = s.get_char(j);
        let v = c as u32;
        if !(48 <= v && v <= 57) {
            proof {
                assert(!is_dec(s@[j as int]));
            }
            return Some((acc, j));
        }
        let d: u64 = (v - 48) as u64;
        proof {
            assert(is_dec(s@[j as int]));
            assert(d as int == s@[j as int] as int - 48);
            assert(d <= 9);
            let b = bound as int - d as int;
            assert(b == 10 * (b / 10) + b % 10 && 0 <= b % 10 < 10);
        }
        if acc > (bound - d) / 10 {
            proof {
                assert(acc as int * 10 + d as int > bound as int);
            }
            return None;
        }
        proof {
            assert(acc as int <= (bound as int - d as int) / 10);
            assert(acc as int * 10 + d as int <= bound as int);
        }
        acc = acc * 10 + d;
        j = j + 1;
    }
}

/// Reads a signed decimal integer, as `sp_i64` describes.
pub fn p_i64(s: &str, i: usize) -> (r: Option<(i64, usize)>)
    ensures
        match r {
            Some(t) => sp_i64(s@, i as int) == Some((t.0 as int, t.1 as int)) && i <= t.1
                <= s@.len(),
            None => sp_i64(s@, i as int) is None,
        },
{
    let n = s.unicode_len();
    if i >= n {
        return None;
    }
    let c = s.get_char(i);
    if c == '-' {
        if i + 1 >= n {
            return None;
        }
        let d0 = s.get_char(i + 1);
        let v0 = d0 as u32;
        if !(48 <= v0 && v0 <= 57) {
            return None;
        }
        match p_digits(s, i + 1, 9223372036854775808u64) {
            Some(t) => {
                let m = t.0;
                let e = t.1;
                let r: i64 = if m >= 9223372036854775808u64 {
                    i64::MIN
                } else {
                    -(m as i64)
                };
                proof {
                    assert(r as int == -(m as int));
                }
                Some((r, e))
            },
            None => None,
        }
    } else {
        let v0 = c as u32;
        if !(48 <= v0 && v0 <= 57) {
            return None;
        }
        match p_digits(s, i, 0x7FFFFFFFFFFFFFFFu64) {
            Some(t) => Some((t.0 as i64, t.1)),
            None => None,
        }
    }
}

/// Reads one `"key":"value"` member, as `sp_entry` describes.
fn p_entry(s: &str, i: usize) -> (r: Option<(String, String, usize)>)
    ensures
        match r {
            Some(t) => sp_entry(s@, i as int) == Some(((t.0@, t.1@), t.2 as int)) && i + 3 < t.2
                <= s@.len(),
            None => sp_entry(s@, i as int) is None,
        },
{
    let n = s.unicode_len();
    match p_string(s, i) {
        None => None,
        Some(k) => {
            let key = k.0;
            let j = k.1;
            if j >= n {
                return None;
            }
            if s.get_char(j) != ':' {
                return None;
            }
            match p_string(s, j + 1) {
                None => None,
                Some(v) => Some((key, v.0, v.1)),
            }
        },
    }
}

/// Reads a whole object with strictly increasing keys, as `sp_map`
/// describes; the table handed back is well formed.
pub fn p_map(s: &str, i: usize) -> (r: Option<(StrMap, usize)>)
    ensures
        match r {
            Some(t) => t.0.wf() && sp_map(s@, i as int) == Some((t.0.pair_seq(), t.1 as int)) && i
                < t.1 <= s@.len(),
            None => sp_map(s@, i as int) is None,
        },
{
    let n = s.unicode_len();
    if i >= n {
        return None;
    }
    if s.get_char(i) != '{' {
        return None;
    }
    if i + 1 < n && s.get_char(i + 1) == '}' {
        let m = StrMap::new();
        return Some((m, i + 2));
    }
    match p_entry(s, i + 1) {
        None => None,
        Some(first) => {
            let mut entries: Vec<(String, String)> = Vec::new();
            entries.push((first.0, first.1));
            let mut pos = first.2;
            let ghost ps_head = seq![(entries@[0].0@, entries@[0].1@)];
            loop
                invariant
                    n == s@.len(),
                    i < pos <= n,
                    entries@.len() >= 1,
                    sorted_pairs(
                        Seq::new(
                            entries@.len(),
                            |q: int| (entries@[q].0@, entries@[q].1@),
                        ),
                    ),
                    (match sp_map_tail(
                        s@,
                        pos as int,
                        entries@[entries@.len() - 1].0@,
                    ) {
                        Some(t) => sp_map(s@, i as int) == Some(
                            (
                                Seq::new(
                                    entries@.len(),
                                    |q: int| (entries@[q].0@, entries@[q].1@),
                                ) + t.0,
                                t.1,
                            ),
                        ),
                        None => sp_map(s@, i as int) is None,
                    }),
                decreases n - pos,
            {
                let ghost pos0 = pos as int;
                let ghost ent0 = Seq::new(entries@.len(), |q: int| (entries@[q].0@, entries@[q].1@));
                let ghost prev0 = entries@[entries@.len() - 1].0@;
                if pos >= n {
                    return None;
                }
                let c = s.get_char(pos);
                if c == '}' {
                    let m = StrMap { entries };
                    proof {
                        assert(sp_map_tail(s@, pos0, prev0) == Some(
                            (Seq::<(Seq<char>, Seq<char>)>::empty(), pos0 + 1),
                        ));
                        assert(m.pair_seq() =~= ent0);
                        assert(ent0 + Seq::<(Seq<char>, Seq<char>)>::empty() =~= ent0);
                    }
                    return Some((m, pos + 1));
                }
                if c != ',' {
                    return None;
                }
                match p_entry(s, pos + 1) {
                    None => {
                        return None;
                    },
                    Some(nxt) => {
                        let goes_after = str_lt(entries[entries.len() - 1].0.as_str(), nxt.0.as_str());
                        if !goes_after {
                            return None;
                        }
                        entries.push((nxt.0, nxt.1));
                        pos = nxt.2;
                        proof {
                            let ent1 = Seq::new(
                                entries@.len(),
                                |q: int| (entries@[q].0@, entries@[q].1@),
                            );
                            let p = (ent1[ent1.len() - 1].0, ent1[ent1.len() - 1].1);
                            assert(ent1 =~= ent0.push(ent1[ent1.len() - 1]));
                            assert(lex_lt(prev0, ent1[ent1.len() - 1].0));
                            assert forall|a: int, b: int| 0 <= a < b < ent1.len() implies lex_lt(
                                (#[trigger] ent1[a]).0,
                                (#[trigger] ent1[b]).0,
                            ) by {
                                if b < ent1.len() - 1 {
                                    assert(ent1[a] == ent0[a] && ent1[b] == ent0[b]);
                                } else {
                                    assert(ent1[b].0 == ent1[ent1.len() - 1].0);
                                    if a < ent0.len() - 1 {
                                        assert(ent1[a] == ent0[a]);
                                        assert(ent0[ent0.len() - 1].0 == prev0);
                                        assert(lex_lt(ent0[a].0, ent0[ent0.len() - 1].0));
                                        crate::lexord::lemma_lex_trans(
                                            ent0[a].0,
                                            prev0,
                                            ent1[ent1.len() - 1].0,
                                        );
                                    } else {
                                        assert(ent1[a].0 == prev0);
                                    }
                                }
                            }
                            match sp_map_tail(s@, pos as int, ent1[ent1.len() - 1].0) {
                                Some(t) => {
                                    assert(sp_map_tail(s@, pos0, prev0) == Some(
                                        (seq![ent1[ent1.len() - 1]] + t.0, t.1),
                                    ));
                                    assert(ent0 + (seq![ent1[ent1.len() - 1]] + t.0) =~= ent1 + t.0);
                                },
                                None => {
                                    assert(sp_map_tail(s@, pos0, prev0) is None);
                                },
                            }
                        }
                    },
                }
            }
        },
    }
}

/// Compares the characters of `s` from `i` with the whole of `pat`.
pub fn match_at(s: &str, i: usize, pat: &str) -> (r: bool)
    ensures
        r == (i + pat@.len() <= s@.len() && s@.subrange(
            i as int,
            i as int + pat@.len() as int,
        ) == pat@),
{
    let n = s.unicode_len();
    let m = pat.unicode_len();
    if i > n || m > n - i {
        return false;
    }
    let mut k: usize = 0;
    while k < m
        invariant
            n == s@.len(),
            m == pat@.len(),
            i + m <= n,
            k <= m,
            forall|q: int| 0 <= q < k ==> s@[i + q] == pat@[q],
        decreases m - k,
    {
        let a = s.get_char(i + k);
        let b = pat.get_char(k);
        if a != b {
            proof {
                assert(s@.subrange(i as int, i as int + pat@.len() as int)[k as int] != pat@[
                    k as int]);
            }
            return false;
        }
        k = k + 1;
    }
    proof {
        assert(s@.subrange(i as int, i as int + pat@.len() as int) =~= pat@);
    }
    true
}

/// Reads a whole staging-area record, as `sp_staging` describes.
pub fn decode_staging_text(s: &str) -> (r: Option<(StrMap, StrMap)>)
    ensures
        match r {
            Some(t) => t.0.wf() && t.1.wf() && sp_staging(s@) == Some(
                (t.0.pair_seq(), t.1.pair_seq()),
            ),
            None => sp_staging(s@) is None,
        },
{
    let n = s.unicode_len();
    let p1 = "{\"staged\":";
    let p2 = ",\"deleted\":";
    if !match_at(s, 0, p1) {
        return None;
    }
    let l1 = p1.unicode_len();
    match p_map(s, l1) {
        None => None,
        Some(st) => {
            let staged = st.0;
            let pos = st.1;
            if !match_at(s, pos, p2) {
                return None;
            }
            let l2 = p2.unicode_len();
            match p_map(s, pos + l2) {
                None => None,
                Some(dl) => {
                    let deleted = dl.0;
                    let pos2 = dl.1;
                    if n - pos2 == 1 && s.get_char(pos2) == '}' {
                        Some((staged, deleted))
                    } else {
                        None
                    }
                },
            }
        },
    }
}

/// Reads a whole commit record, as `sp_commit` describes.
pub fn decode_commit_text(s: &str) -> (r: Option<(String, i64, StrMap, String)>)
    ensures
        match r {
            Some(t) => t.2.wf() && sp_commit(s@) == Some(
                (t.0@, t.1 as int, t.2.pair_seq(), t.3@),
            ),
            None => sp_commit(s@) is None,
        },
{
    let n = s.unicode_len();
    let p1 = "{\"meta\":{\"message\":";
    let p2 = ",\"date_time\":";
    let p3 = "},\"blobs\":";
    let p4 = ",\"parent\":";
    if !match_at(s, 0, p1) {
        return None;
    }
    match p_string(s, p1.unicode_len()) {
        None => None,
        Some(ms) => {
            let message = ms.0;
            let pos = ms.1;
            if !match_at(s, pos, p2) {
                return None;
            }
            match p_i64(s, pos + p2.unicode_len()) {
                None => None,
                Some(dt) => {
                    let date_time = dt.0;
                    let pos2 = dt.1;
                    if !match_at(s, pos2, p3) {
                        return None;
                    }
                    match p_map(s, pos2 + p3.unicode_len()) {
                        None => None,
                        Some(bl) => {
                            let blobs = bl.0;
                            let pos3 = bl.1;
                            if !match_at(s, pos3, p4) {
                                return None;
                            }
                            match p_string(s, pos3 + p4.unicode_len()) {
                                None => None,
                                Some(pr) => {
                                    let parent = pr.0;
                                    let pos4 = pr.1;
                                    if n - pos4 == 1 && s.get_char(pos4) == '}' {
                                        Some((message, date_time, blobs, parent))
                                    } else {
                                        None
                                    }
                                },
                            }
                        },
                    }
                },
            }
        },
    }
}

/// Splitting a known stretch of `s` at a concatenation boundary.
pub proof fn lemma_subrange_cat(s: Seq<char>, i: int, a: Seq<char>, b: Seq<char>)
    requires
        0 <= i,
        i + a.len() + b.len() <= s.len(),
        s.subrange(i, i + a.len() + b.len()) == a + b,
    ensures
        s.subrange(i, i + a.len()) == a,
        s.subrange(i + a.len(), i + a.len() + b.len()) == b,
{
    assert(s.subrange(i, i + a.len()) =~= a) by {
        assert forall|k: int| 0 <= k < a.len() implies s.subrange(i, i + a.len())[k] == a[k] by {
            assert(s.subrange(i, i + a.len() + b.len())[k] == (a + b)[k]);
            assert((a + b)[k] == a[k]);
            assert(s.subrange(i, i + a.len() + b.len())[k] == s[i + k]);
            assert(s.subrange(i, i + a.len())[k] == s[i + k]);
        }
    }
    assert(s.subrange(i + a.len(), i + a.len() + b.len()) =~= b) by {
        assert forall|k: int|
            0 <= k < b.len() implies s.subrange(i + a.len(), i + a.len() + b.len())[k] == b[k] by {
            assert(s.subrange(i, i + a.len() + b.len())[a.len() + k] == (a + b)[a.len() + k]);
            assert((a + b)[a.len() + k] == b[k]);
            assert(s.subrange(i, i + a.len() + b.len())[a.len() + k] == s[i + a.len() + k]);
            assert(s.subrange(i + a.len(), i + a.len() + b.len())[k] == s[i + a.len() + k]);
        }
    }
}

/// A known stretch of `s` fixes the character at offset `k` inside it.
pub proof fn lemma_char_at(s: Seq<char>, i: int, a: Seq<char>, k: int)
    requires
        0 <= i,
        i + a.len() <= s.len(),
        s.subrange(i, i + a.len()) == a,
        0 <= k < a.len(),
    ensures
        s[i + k] == a[k],
{
    assert(s.subrange(i, i + a.len())[k] == a[k]);
    assert(s.subrange(i, i + a.len())[k] == s[i + k]);
}

/// The value range a real `char` always lies in.
pub open spec fn valid_char(c: char) -> bool {
    (0 <= (c as int) && (c as int) < 0xD800) || (0xE000 <= (c as int) && (c as int) <= 0x10FFFF)
}

pub open spec fn valid_chars(s: Seq<char>) -> bool {
    forall|k: int| 0 <= k < s.len() ==> valid_char(#[trigger] s[k])
}

pub open spec fn valid_pairs(s: PairSeq) -> bool {
    forall|n: int|
        0 <= n < s.len() ==> valid_chars((#[trigger] s[n]).0) && valid_chars(s[n].1)
}

/// The decoder reads back exactly what `esc` wrote, up to the closing
/// quote that follows it.
pub proof fn lemma_str_body_rt(s: Seq<char>, i: int, x: Seq<char>)
    requires
        0 <= i,
        i + esc(x).len() + 1 <= s.len(),
        s.subrange(i, i + esc(x).len()) == esc(x),
        s[i + esc(x).len()] == '"',
        valid_chars(x),
    ensures
        sp_str_body(s, i) == Some((x, i + esc(x).len() + 1)),
    decreases x.len(),
{
    if x.len() == 0 {
        assert(esc(x).len() == 0);
        assert(s[i] == '"');
        assert(x =~= Seq::<char>::empty());
    } else {
        let c = x[0];
        let rest = x.drop_first();
        let ec = esc_char(c);
        assert(valid_char(c));
        assert(valid_chars(rest)) by {
            assert forall|k: int| 0 <= k < rest.len() implies valid_char(#[trigger] rest[k]) by {
                assert(rest[k] == x[k + 1]);
            }
        }
        assert(esc(x) == ec + esc(rest));
        lemma_subrange_cat(s, i, ec, esc(rest));
        let j = i + ec.len();
        lemma_str_body_rt(s, j, rest);
        assert(seq![c] + rest =~= x);
        if c == '"' {
            lemma_char_at(s, i, ec, 0);
            lemma_char_at(s, i, ec, 1);
            assert(s[i] == '\\' && s[i + 1] == '"');
        } else if c == '\\' {
            lemma_char_at(s, i, ec, 0);
            lemma_char_at(s, i, ec, 1);
            assert(s[i] == '\\' && s[i + 1] == '\\');
        } else if c == '\x08' {
            lemma_char_at(s, i, ec, 0);
            lemma_char_at(s, i, ec, 1);
            assert(s[i] == '\\' && s[i + 1] == 'b');
        } else if c == '\x0c' {
            lemma_char_at(s, i, ec, 0);
            lemma_char_at(s, i, ec, 1);
            assert(s[i] == '\\' && s[i + 1] == 'f');
        } else if c == '\n' {
            lemma_char_at(s, i, ec, 0);
            lemma_char_at(s, i, ec, 1);
            assert(s[i] == '\\' && s[i + 1] == 'n');
        } else if c == '\r' {
            lemma_char_at(s, i, ec, 0);
            lemma_char_at(s, i, ec, 1);
            assert(s[i] == '\\' && s[i + 1] == 'r');
        } else if c == '\t' {
            lemma_char_at(s, i, ec, 0);
            lemma_char_at(s, i, ec, 1);
            assert(s[i] == '\\' && s[i + 1] == 't');
        } else if (c as int) < 32 {
            lemma_char_at(s, i, ec, 0);
            lemma_char_at(s, i, ec, 1);
            lemma_char_at(s, i, ec, 2);
            lemma_char_at(s, i, ec, 3);
            lemma_char_at(s, i, ec, 4);
            lemma_char_at(s, i, ec, 5);
            assert(s[i] == '\\' && s[i + 1] == 'u' && s[i + 2] == '0' && s[i + 3] == '0');
            assert(s[i + 4] == hex_digit((c as int) / 16) && s[i + 5] == hex_digit(
                (c as int) % 16,
            ));
            assert(is_hex(s[i + 2]) && is_hex(s[i + 3]));
            assert(hex_val(s[i + 2]) == 0 && hex_val(s[i + 3]) == 0);
            let d1 = (c as int) / 16;
            let d0 = (c as int) % 16;
            assert(0 <= c as int);
            assert(0 <= d1 < 2 && 0 <= d0 < 16);
            assert(hex_digit(d1) == (48 + d1) as char);
            assert(((48 + d1) as char) as int == 48 + d1);
            assert(is_hex(s[i + 4]) && hex_val(s[i + 4]) == d1);
            if d0 < 10 {
                assert(hex_digit(d0) == (48 + d0) as char);
                assert(((48 + d0) as char) as int == 48 + d0);
            } else {
                assert(hex_digit(d0) == (87 + d0) as char);
                assert(((87 + d0) as char) as int == 87 + d0);
            }
            assert(is_hex(s[i + 5]) && hex_val(s[i + 5]) == d0);
            let v = 4096 * hex_val(s[i + 2]) + 256 * hex_val(s[i + 3]) + 16 * hex_val(s[i + 4])
                + hex_val(s[i + 5]);
            assert(v == c as int);
            assert(v < 0xD800);
            assert((v as char) == c);
        } else {
            lemma_char_at(s, i, ec, 0);
            assert(s[i] == c);
        }
    }
}

/// The decoder reads back exactly the quoted string `json_string` wrote.
pub proof fn lemma_string_rt(s: Seq<char>, i: int, x: Seq<char>)
    requires
        0 <= i,
        i + json_string(x).len() <= s.len(),
        s.subrange(i, i + json_string(x).len()) == json_string(x),
        valid_chars(x),
    ensures
        sp_string(s, i) == Some((x, i + json_string(x).len())),
{
    assert(json_string(x) == seq!['"'] + esc(x) + seq!['"']);
    assert((seq!['"'] + esc(x)) + seq!['"'] =~= seq!['"'] + (esc(x) + seq!['"']));
    lemma_subrange_cat(s, i, seq!['"'], esc(x) + seq!['"']);
    lemma_subrange_cat(s, i + 1, esc(x), seq!['"']);
    lemma_char_at(s, i, seq!['"'], 0);
    lemma_char_at(s, i + 1 + esc(x).len(), seq!['"'], 0);
    assert(s[i] == '"');
    assert(s[i + 1 + esc(x).len()] == '"');
    lemma_str_body_rt(s, i + 1, x);
}

/// Ten to the power `k`.
pub open spec fn pow10(k: nat) -> int
    decreases k,
{
    if k == 0 {
        1
    } else {
        10 * pow10((k - 1) as nat)
    }
}

pub proof fn lemma_pow10_pos(k: nat)
    ensures
        pow10(k) >= 1,
    decreases k,
{
    if k > 0 {
        lemma_pow10_pos((k - 1) as nat);
    }
}

pub proof fn lemma_dec_digits_are_digits(n: nat)
    ensures
        dec_digits(n).len() >= 1,
        forall|k: int| 0 <= k < dec_digits(n).len() ==> is_dec(#[trigger] dec_digits(n)[k]),
    decreases n,
{
    if n >= 10 {
        lemma_dec_digits_are_digits(n / 10);
        assert forall|k: int|
            0 <= k < dec_digits(n).len() implies is_dec(#[trigger] dec_digits(n)[k]) by {
            if k < dec_digits(n).len() - 1 {
                assert(dec_digits(n)[k] == dec_digits(n / 10)[k]);
            }
        }
    }
}

/// Reading the digits that `dec_digits` wrote extends the accumulator by
/// one more block of the number.
pub proof fn lemma_digits_rt(s: Seq<char>, i: int, n: nat, acc: int, bound: int)
    requires
        0 <= i,
        i + dec_digits(n).len() <= s.len(),
        s.subrange(i, i + dec_digits(n).len()) == dec_digits(n),
        0 <= acc,
        0 <= bound,
        acc * pow10(dec_digits(n).len() as nat) + n <= bound,
    ensures
        sp_digits(s, i, acc, bound) == sp_digits(
            s,
            i + dec_digits(n).len(),
            acc * pow10(dec_digits(n).len() as nat) + n,
            bound,
        ),
    decreases n,
{
    assert(pow10(0nat) == 1);
    if n < 10 {
        assert(dec_digits(n) == seq![digit_char(n as int)]);
        lemma_char_at(s, i, dec_digits(n), 0);
        assert(s[i] == digit_char(n as int));
        assert(is_dec(s[i]));
        assert(s[i] as int - 48 == n);
        assert(pow10(1nat) == 10);
        assert(acc * 10 + n <= bound);
    } else {
        let head = dec_digits(n / 10);
        let lo = digit_char((n % 10) as int);
        let lp = head.len() as int;
        assert(dec_digits(n) == head.push(lo));
        assert(head.push(lo) =~= head + seq![lo]);
        lemma_subrange_cat(s, i, head, seq![lo]);
        lemma_char_at(s, i + lp, seq![lo], 0);
        assert(s[i + lp] == lo);
        lemma_pow10_pos(lp as nat);
        lemma_pow10_pos((lp + 1) as nat);
        assert(pow10((lp + 1) as nat) == 10 * pow10(lp as nat));
        let a1 = acc * pow10(lp as nat) + n / 10;
        assert(acc * (10 * pow10(lp as nat)) == 10 * (acc * pow10(lp as nat))) by (nonlinear_arith);
        assert(acc * pow10(lp as nat) >= 0) by (nonlinear_arith)
            requires
                acc >= 0,
                pow10(lp as nat) >= 1,
        ;
        assert(10 * a1 + n % 10 == acc * pow10((lp + 1) as nat) + n);
        assert(10 * a1 <= acc * pow10((lp + 1) as nat) + n);
        assert(a1 <= bound);
        lemma_digits_rt(s, i, n / 10, acc, bound);
        assert(sp_digits(s, i, acc, bound) == sp_digits(s, i + lp, a1, bound));
        assert(is_dec(s[i + lp]));
        assert(s[i + lp] as int - 48 == n % 10);
        assert(a1 * 10 + (n % 10) <= bound);
        assert(sp_digits(s, i + lp, a1, bound) == sp_digits(
            s,
            i + lp + 1,
            a1 * 10 + (n % 10),
            bound,
        ));
        assert(a1 * 10 + (n % 10) == acc * pow10(dec_digits(n).len() as nat) + n);
    }
}

/// The decoder reads back exactly the integer `enc_i64` wrote, given that
/// no digit follows it.
pub proof fn lemma_i64_rt(s: Seq<char>, i: int, v: int)
    requires
        0 <= i,
        i + enc_i64(v).len() <= s.len(),
        s.subrange(i, i + enc_i64(v).len()) == enc_i64(v),
        i + enc_i64(v).len() == s.len() || !is_dec(s[i + enc_i64(v).len()]),
        -0x8000000000000000 <= v <= 0x7FFFFFFFFFFFFFFF,
    ensures
        sp_i64(s, i) == Some((v, i + enc_i64(v).len())),
{
    if v >= 0 {
        let ds = dec_digits(v as nat);
        lemma_dec_digits_are_digits(v as nat);
        lemma_char_at(s, i, ds, 0);
        assert(s[i] == ds[0]);
        assert(is_dec(s[i]));
        assert(s[i] != '-');
        lemma_pow10_pos(ds.len() as nat);
        assert(0 * pow10(ds.len() as nat) == 0) by (nonlinear_arith);
        lemma_digits_rt(s, i, v as nat, 0, 0x7FFFFFFFFFFFFFFF);
        assert(sp_digits(s, i, 0, 0x7FFFFFFFFFFFFFFF) == sp_digits(
            s,
            i + ds.len(),
            v,
            0x7FFFFFFFFFFFFFFF,
        ));
        assert(sp_digits(s, i + ds.len(), v, 0x7FFFFFFFFFFFFFFF) == Some((v, i + ds.len())));
    } else {
        let m = -v;
        let ds = dec_digits(m as nat);
        assert(enc_i64(v) == seq!['-'] + ds);
        lemma_subrange_cat(s, i, seq!['-'], ds);
        lemma_char_at(s, i, seq!['-'], 0);
        assert(s[i] == '-');
        lemma_dec_digits_are_digits(m as nat);
        lemma_char_at(s, i + 1, ds, 0);
        assert(s[i + 1] == ds[0]);
        assert(is_dec(s[i + 1]));
        lemma_pow10_pos(ds.len() as nat);
        assert(0 * pow10(ds.len() as nat) == 0) by (nonlinear_arith);
        lemma_digits_rt(s, i + 1, m as nat, 0, 0x8000000000000000);
        assert(sp_digits(s, i + 1, 0, 0x8000000000000000) == sp_digits(
            s,
            i + 1 + ds.len(),
            m,
            0x8000000000000000,
        ));
        assert(sp_digits(s, i + 1 + ds.len(), m, 0x8000000000000000) == Some(
            (m, i + 1 + ds.len()),
        ));
    }
}

/// The decoder reads back exactly the member `enc_entry` wrote.
pub proof fn lemma_entry_rt(s: Seq<char>, i: int, p: (Seq<char>, Seq<char>))
    requires
        0 <= i,
        i + enc_entry(p).len() <= s.len(),
        s.subrange(i, i + enc_entry(p).len()) == enc_entry(p),
        valid_chars(p.0),
        valid_chars(p.1),
    ensures
        sp_entry(s, i) == Some((p, i + enc_entry(p).len())),
{
    let a = json_string(p.0);
    let b = json_string(p.1);
    assert(enc_entry(p) == a + seq![':'] + b);
    assert((a + seq![':']) + b =~= a + (seq![':'] + b));
    lemma_subrange_cat(s, i, a, seq![':'] + b);
    lemma_subrange_cat(s, i + a.len(), seq![':'], b);
    lemma_char_at(s, i + a.len(), seq![':'], 0);
    lemma_string_rt(s, i, p.0);
    assert(s[i + a.len()] == ':');
    lemma_string_rt(s, i + a.len() + 1, p.1);
}

/// The decoder reads back exactly the members `enc_rest` wrote, given keys
/// above `prev`.
pub proof fn lemma_rest_rt(s: Seq<char>, i: int, prev: Seq<char>, pairs: PairSeq)
    requires
        0 <= i,
        i + enc_rest(pairs).len() <= s.len(),
        s.subrange(i, i + enc_rest(pairs).len()) == enc_rest(pairs),
        sorted_pairs(pairs),
        valid_pairs(pairs),
        forall|n: int| 0 <= n < pairs.len() ==> lex_lt(prev, (#[trigger] pairs[n]).0),
    ensures
        sp_map_tail(s, i, prev) == Some((pairs, i + enc_rest(pairs).len())),
    decreases pairs.len(),
{
    if pairs.len() == 0 {
        assert(enc_rest(pairs) == seq!['}']);
        lemma_char_at(s, i, seq!['}'], 0);
        assert(s[i] == '}');
        assert(pairs =~= Seq::<(Seq<char>, Seq<char>)>::empty());
    } else {
        let p = pairs[0];
        let rest = pairs.drop_first();
        let ee = enc_entry(p);
        assert(enc_rest(pairs) == seq![','] + ee + enc_rest(rest));
        assert((seq![','] + ee) + enc_rest(rest) =~= seq![','] + (ee + enc_rest(rest)));
        lemma_subrange_cat(s, i, seq![','], ee + enc_rest(rest));
        lemma_subrange_cat(s, i + 1, ee, enc_rest(rest));
        lemma_char_at(s, i, seq![','], 0);
        assert(s[i] == ',');
        assert(valid_chars(p.0) && valid_chars(p.1));
        lemma_entry_rt(s, i + 1, p);
        assert(lex_lt(prev, p.0));
        let e = i + 1 + ee.len();
        assert forall|q: int| 0 <= q < rest.len() implies lex_lt(p.0, (#[trigger] rest[q]).0) by {
            assert(rest[q] == pairs[q + 1]);
        }
        assert forall|a: int, b: int| 0 <= a < b < rest.len() implies lex_lt(
            (#[trigger] rest[a]).0,
            (#[trigger] rest[b]).0,
        ) by {
            assert(rest[a] == pairs[a + 1] && rest[b] == pairs[b + 1]);
        }
        assert forall|q: int|
            0 <= q < rest.len() implies valid_chars((#[trigger] rest[q]).0) && valid_chars(
            rest[q].1,
        ) by {
            assert(rest[q] == pairs[q + 1]);
        }
        lemma_rest_rt(s, e, p.0, rest);
        assert(seq![p] + rest =~= pairs);
    }
}

/// The decoder reads back exactly the object `enc_map` wrote.
pub proof fn lemma_map_rt(s: Seq<char>, i: int, pairs: PairSeq)
    requires
        0 <= i,
        i + enc_map(pairs).len() <= s.len(),
        s.subrange(i, i + enc_map(pairs).len()) == enc_map(pairs),
        sorted_pairs(pairs),
        valid_pairs(pairs),
    ensures
        sp_map(s, i) == Some((pairs, i + enc_map(pairs).len())),
{
    assert(enc_map(pairs) == seq!['{'] + enc_items(pairs));
    lemma_subrange_cat(s, i, seq!['{'], enc_items(pairs));
    lemma_char_at(s, i, seq!['{'], 0);
    assert(s[i] == '{');
    if pairs.len() == 0 {
        assert(enc_items(pairs) == seq!['}']);
        lemma_char_at(s, i + 1, seq!['}'], 0);
        assert(s[i + 1] == '}');
        assert(pairs =~= Seq::<(Seq<char>, Seq<char>)>::empty());
    } else {
        let p = pairs[0];
        let rest = pairs.drop_first();
        let ee = enc_entry(p);
        assert(enc_items(pairs) == ee + enc_rest(rest));
        lemma_subrange_cat(s, i + 1, ee, enc_rest(rest));
        assert(ee == (json_string(p.0) + seq![':']) + json_string(p.1));
        assert(ee[0] == '"') by {
            assert(json_string(p.0) == seq!['"'] + esc(p.0) + seq!['"']);
            assert(json_string(p.0)[0] == '"');
        }
        lemma_char_at(s, i + 1, ee, 0);
        assert(s[i + 1] == '"');
        assert(valid_chars(p.0) && valid_chars(p.1));
        lemma_entry_rt(s, i + 1, p);
        let e = i + 1 + ee.len();
        assert forall|q: int| 0 <= q < rest.len() implies lex_lt(p.0, (#[trigger] rest[q]).0) by {
            assert(rest[q] == pairs[q + 1]);
        }
        assert forall|a: int, b: int| 0 <= a < b < rest.len() implies lex_lt(
            (#[trigger] rest[a]).0,
            (#[trigger] rest[b]).0,
        ) by {
            assert(rest[a] == pairs[a + 1] && rest[b] == pairs[b + 1]);
        }
        assert forall|q: int|
            0 <= q < rest.len() implies valid_chars((#[trigger] rest[q]).0) && valid_chars(
            rest[q].1,
        ) by {
            assert(rest[q] == pairs[q + 1]);
        }
        lemma_rest_rt(s, e, p.0, rest);
        assert(seq![p] + rest =~= pairs);
    }
}

/// Decoding inverts encoding for a staging area: the canonical text of two
/// sorted tables parses back to exactly those tables.
pub proof fn lemma_staging_rt(staged: PairSeq, deleted: PairSeq)
    requires
        sorted_pairs(staged),
        sorted_pairs(deleted),
        valid_pairs(staged),
        valid_pairs(deleted),
    ensures
        sp_staging(enc_staging(staged, deleted)) == Some((staged, deleted)),
{
    let p1 = "{\"staged\":"@;
    let p2 = ",\"deleted\":"@;
    let a = enc_map(staged);
    let b = enc_map(deleted);
    let s = enc_staging(staged, deleted);
    assert(s == p1 + a + p2 + b + seq!['}']);
    assert(s =~= p1 + (a + (p2 + (b + seq!['}']))));
    assert(s.subrange(0, s.len() as int) =~= s);
    lemma_subrange_cat(s, 0, p1, a + (p2 + (b + seq!['}'])));
    lemma_subrange_cat(s, p1.len() as int, a, p2 + (b + seq!['}']));
    let i1 = p1.len() + a.len();
    lemma_subrange_cat(s, i1 as int, p2, b + seq!['}']);
    let i2 = i1 + p2.len();
    lemma_subrange_cat(s, i2 as int, b, seq!['}']);
    let i3 = i2 + b.len();
    lemma_char_at(s, i3 as int, seq!['}'], 0);
    lemma_map_rt(s, p1.len() as int, staged);
    lemma_map_rt(s, i2 as int, deleted);
    assert(s[i3 as int] == '}');
    assert(i3 + 1 == s.len());
}

/// Where each piece of a nine-piece concatenation stands in the whole.
#[verifier::spinoff_prover]
proof fn lemma_nine_pieces(
    s: Seq<char>,
    p1: Seq<char>,
    a: Seq<char>,
    p2: Seq<char>,
    b: Seq<char>,
    p3: Seq<char>,
    c: Seq<char>,
    p4: Seq<char>,
    d: Seq<char>,
)
    requires
        s == p1 + a + p2 + b + p3 + c + p4 + d + seq!['}'],
    ensures
        s.len() == p1.len() + a.len() + p2.len() + b.len() + p3.len() + c.len() + p4.len()
            + d.len() + 1,
        s.subrange(0, p1.len() as int) == p1,
        s.subrange(p1.len() as int, (p1.len() + a.len()) as int) == a,
        s.subrange((p1.len() + a.len()) as int, (p1.len() + a.len() + p2.len()) as int) == p2,
        s.subrange((p1.len() + a.len() + p2.len()) as int, (p1.len() + a.len() + p2.len() + b.len()) as int) == b,
        s.subrange(
            (p1.len() + a.len() + p2.len() + b.len()) as int,
            (p1.len() + a.len() + p2.len() + b.len() + p3.len()) as int,
        ) == p3,
        s.subrange(
            (p1.len() + a.len() + p2.len() + b.len() + p3.len()) as int,
            (p1.len() + a.len() + p2.len() + b.len() + p3.len() + c.len()) as int,
        ) == c,
        s.subrange(
            (p1.len() + a.len() + p2.len() + b.len() + p3.len() + c.len()) as int,
            (p1.len() + a.len() + p2.len() + b.len() + p3.len() + c.len() + p4.len()) as int,
        ) == p4,
        s.subrange(
            (p1.len() + a.len() + p2.len() + b.len() + p3.len() + c.len() + p4.len()) as int,
            (p1.len() + a.len() + p2.len() + b.len() + p3.len() + c.len() + p4.len() + d.len()) as int,
        ) == d,
        s[s.len() - 1] == '}',
{
    assert(s.subrange(0, s.len() as int) =~= s);
    let t7 = p1 + a + p2 + b + p3 + c + p4 + d;
    lemma_subrange_cat(s, 0, t7, seq!['}']);
    let t6 = p1 + a + p2 + b + p3 + c + p4;
    lemma_subrange_cat(s, 0, t6, d);
    let t5 = p1 + a + p2 + b + p3 + c;
    lemma_subrange_cat(s, 0, t5, p4);
    let t4 = p1 + a + p2 + b + p3;
    lemma_subrange_cat(s, 0, t4, c);
    let t3 = p1 + a + p2 + b;
    lemma_subrange_cat(s, 0, t3, p3);
    let t2 = p1 + a + p2;
    lemma_subrange_cat(s, 0, t2, b);
    let t1 = p1 + a;
    lemma_subrange_cat(s, 0, t1, p2);
    lemma_subrange_cat(s, 0, p1, a);
    lemma_char_at(s, t7.len() as int, seq!['}'], 0);
}

/// Decoding inverts encoding for a commit record.
#[verifier::rlimit(100)]
pub proof fn lemma_commit_rt(message: Seq<char>, date_time: int, blobs: PairSeq, parent: Seq<char>)
    requires
        sorted_pairs(blobs),
        valid_pairs(blobs),
        valid_chars(message),
        valid_chars(parent),
        -0x8000000000000000 <= date_time <= 0x7FFFFFFFFFFFFFFF,
    ensures
        sp_commit(enc_commit(message, date_time, blobs, parent)) == Some(
            (message, date_time, blobs, parent),
        ),
{
    let p1 = "{\"meta\":{\"message\":"@;
    let p2 = ",\"date_time\":"@;
    let p3 = "},\"blobs\":"@;
    let p4 = ",\"parent\":"@;
    let a = json_string(message);
    let b = enc_i64(date_time);
    let c = enc_map(blobs);
    let d = json_string(parent);
    let s = enc_commit(message, date_time, blobs, parent);
    assert(s == p1 + a + p2 + b + p3 + c + p4 + d + seq!['}']);
    lemma_nine_pieces(s, p1, a, p2, b, p3, c, p4, d);
    let i1 = p1.len() + a.len();
    let i2 = i1 + p2.len();
    let i3 = i2 + b.len();
    let i4 = i3 + p3.len();
    let i5 = i4 + c.len();
    let i6 = i5 + p4.len();
    let i7 = i6 + d.len();
    lemma_string_rt(s, p1.len() as int, message);
    assert(p3.len() > 0 && p3[0] == '}') by {
        reveal_strlit("},\"blobs\":");
    }
    lemma_char_at(s, i3 as int, p3, 0);
    assert(s[i3 as int] == p3[0]);
    assert(!is_dec(s[i3 as int]));
    lemma_i64_rt(s, i2 as int, date_time);
    lemma_map_rt(s, i4 as int, blobs);
    lemma_string_rt(s, i6 as int, parent);
    assert(s[i7 as int] == '}');
    assert(i7 + 1 == s.len());
}

} // verus!
