//! The Index Store's wire format: one structured document, an object keyed
//! by document path, each value an object keyed by term with an integer
//! count.
//!
//! `index_to_json` writes the canonical text: no blanks between tokens;
//! quotes, backslashes and control characters escaped; everything else raw
//! UTF-8 — a plain JSON document for every index. `json_to_index` reads any
//! document of that shape, leniently: blanks are allowed between tokens and
//! the standard string escapes are decoded. A four-digit escape must denote
//! a scalar value: surrogate pairs are not combined, so a character beyond
//! the four-digit range must stand raw in the text (as this writer and
//! common ones leave it). Duplicate keys and zero counts are rejected, per
//! the index's own invariants, and every well-formed index round-trips.

use vstd::prelude::*;
use crate::ErrorKind;
use crate::index::{
    CorpusIndex, TermFreq, index_wf, lemma_ci_view, lemma_tf_view, results_view, tf_entries_view,
    tf_wf, unique_keys,
};

verus! {

// ------------------------------------------------------------------
// The canonical serialization, as a mathematical function.
// ------------------------------------------------------------------

pub open spec fn digit_char(d: nat) -> char {
    if d == 0 {
        '0'
    } else if d == 1 {
        '1'
    } else if d == 2 {
        '2'
    } else if d == 3 {
        '3'
    } else if d == 4 {
        '4'
    } else if d == 5 {
        '5'
    } else if d == 6 {
        '6'
    } else if d == 7 {
        '7'
    } else if d == 8 {
        '8'
    } else {
        '9'
    }
}

/// Decimal digits of `n`, most significant first, no leading zeros.
pub open spec fn dec_digits(n: nat) -> Seq<char>
    decreases n,
{
    if n < 10 {
        seq![digit_char(n)]
    } else {
        dec_digits(n / 10).push(digit_char(n % 10))
    }
}

pub open spec fn hex_digit(d: nat) -> char {
    if d == 0 {
        '0'
    } else if d == 1 {
        '1'
    } else if d == 2 {
        '2'
    } else if d == 3 {
        '3'
    } else if d == 4 {
        '4'
    } else if d == 5 {
        '5'
    } else if d == 6 {
        '6'
    } else if d == 7 {
        '7'
    } else if d == 8 {
        '8'
    } else if d == 9 {
        '9'
    } else if d == 10 {
        'a'
    } else if d == 11 {
        'b'
    } else if d == 12 {
        'c'
    } else if d == 13 {
        'd'
    } else if d == 14 {
        'e'
    } else {
        'f'
    }
}

/// A quote or backslash is preceded by a backslash; a control character is
/// written as a four-digit hexadecimal escape; all else stands as is.
pub open spec fn esc_char(c: char) -> Seq<char> {
    if c == '"' || c == '\\' {
        seq!['\\', c]
    } else if (c as u32) < 0x20 {
        seq!['\\', 'u', '0', '0', hex_digit(((c as u32) / 16) as nat), hex_digit(
            ((c as u32) % 16) as nat,
        )]
    } else {
        seq![c]
    }
}

pub open spec fn esc(s: Seq<char>) -> Seq<char>
    decreases s.len(),
{
    if s.len() == 0 {
        Seq::empty()
    } else {
        esc_char(s[0]) + esc(s.skip(1))
    }
}

/// A string literal: the escaped characters between two quotes.
pub open spec fn quoted(s: Seq<char>) -> Seq<char> {
    seq!['"'] + esc(s) + seq!['"']
}

/// Comma-joined items.
pub open spec fn joined(items: Seq<Seq<char>>) -> Seq<char>
    decreases items.len(),
{
    if items.len() == 0 {
        Seq::empty()
    } else if items.len() == 1 {
        items[0]
    } else {
        items[0] + seq![','] + joined(items.skip(1))
    }
}

pub open spec fn tf_item(e: (Seq<char>, nat)) -> Seq<char> {
    quoted(e.0) + seq![':'] + dec_digits(e.1)
}

/// The text of one document's frequency object.
pub open spec fn tf_json(s: Seq<(Seq<char>, nat)>) -> Seq<char> {
    seq!['{'] + joined(s.map_values(|e: (Seq<char>, nat)| tf_item(e))) + seq!['}']
}

pub open spec fn ci_item(e: (Seq<char>, Seq<(Seq<char>, nat)>)) -> Seq<char> {
    quoted(e.0) + seq![':'] + tf_json(e.1)
}

/// The text of the whole persisted index.
pub open spec fn index_json(m: Seq<(Seq<char>, Seq<(Seq<char>, nat)>)>) -> Seq<char> {
    seq!['{'] + joined(m.map_values(|e: (Seq<char>, Seq<(Seq<char>, nat)>)| ci_item(e))) + seq!['}']
}

// ------------------------------------------------------------------
// The writer.
// ------------------------------------------------------------------

/// Escaping distributes over concatenation.
pub proof fn lemma_esc_concat(a: Seq<char>, b: Seq<char>)
    ensures
        esc(a + b) == esc(a) + esc(b),
    decreases a.len(),
{
    if a.len() == 0 {
        assert(a + b =~= b);
        assert(esc(a) + esc(b) =~= esc(b));
    } else {
        assert((a + b)[0] == a[0]);
        assert((a + b).skip(1) =~= a.skip(1) + b);
        lemma_esc_concat(a.skip(1), b);
        assert(esc_char(a[0]) + (esc(a.skip(1)) + esc(b)) =~= (esc_char(a[0]) + esc(a.skip(1)))
            + esc(b));
    }
}

/// Joining one more item appends a comma and the item (or is the item).
pub proof fn lemma_joined_snoc(items: Seq<Seq<char>>, x: Seq<char>)
    ensures
        joined(items.push(x)) == if items.len() == 0 {
            x
        } else {
            joined(items) + seq![','] + x
        },
    decreases items.len(),
{
    let u = items.push(x);
    if items.len() == 0 {
        assert(u.len() == 1);
        assert(u[0] == x);
    } else if items.len() == 1 {
        assert(u[0] == items[0]);
        assert(u.skip(1) =~= seq![x]);
        assert(joined(seq![x]) == x);
    } else {
        assert(u[0] == items[0]);
        assert(u.skip(1) =~= items.skip(1).push(x));
        lemma_joined_snoc(items.skip(1), x);
        assert(items[0] + seq![','] + (joined(items.skip(1)) + seq![','] + x) =~= (items[0]
            + seq![','] + joined(items.skip(1))) + seq![','] + x);
    }
}

fn hex_digit_exec(d: u32) -> (c: char)
    requires
        d < 16,
    ensures
        c == hex_digit(d as nat),
{
    if d == 0 {
        '0'
    } else if d == 1 {
        '1'
    } else if d == 2 {
        '2'
    } else if d == 3 {
        '3'
    } else if d == 4 {
        '4'
    } else if d == 5 {
        '5'
    } else if d == 6 {
        '6'
    } else if d == 7 {
        '7'
    } else if d == 8 {
        '8'
    } else if d == 9 {
        '9'
    } else if d == 10 {
        'a'
    } else if d == 11 {
        'b'
    } else if d == 12 {
        'c'
    } else if d == 13 {
        'd'
    } else if d == 14 {
        'e'
    } else {
        'f'
    }
}

fn digit_char_exec(d: usize) -> (c: char)
    requires
        d < 10,
    ensures
        c == digit_char(d as nat),
{
    if d == 0 {
        '0'
    } else if d == 1 {
        '1'
    } else if d == 2 {
        '2'
    } else if d == 3 {
        '3'
    } else if d == 4 {
        '4'
    } else if d == 5 {
        '5'
    } else if d == 6 {
        '6'
    } else if d == 7 {
        '7'
    } else if d == 8 {
        '8'
    } else {
        '9'
    }
}

/// Append the decimal digits of `n`.
fn push_dec(n: usize, out: &mut Vec<char>)
    ensures
        final(out)@ == old(out)@ + dec_digits(n as nat),
    decreases n,
{
    if n >= 10 {
        push_dec(n / 10, out);
    }
    let d = digit_char_exec(n % 10);
    out.push(d);
    proof {
        if n < 10 {
            assert(n % 10 == n);
            assert(out@ =~= old(out)@ + dec_digits(n as nat));
        } else {
            assert((n / 10) as nat == (n as nat) / 10);
            assert((n % 10) as nat == (n as nat) % 10);
            assert(out@ =~= old(out)@ + dec_digits(n as nat));
        }
    }
}

/// Append a quoted, escaped string literal.
fn push_quoted(s: &[char], out: &mut Vec<char>)
    ensures
        final(out)@ == old(out)@ + quoted(s@),
{
    out.push('"');
    let mut i: usize = 0;
    while i < s.len()
        invariant
            i <= s@.len(),
            out@ == old(out)@ + seq!['"'] + esc(s@.take(i as int)),
        decreases s@.len() - i,
    {
        let ghost pre = out@;
        let c = s[i];
        if c == '"' || c == '\\' {
            out.push('\\');
            out.push(c);
        } else {
            let u = c as u32;
            if u < 0x20 {
                out.push('\\');
                out.push('u');
                out.push('0');
                out.push('0');
                out.push(hex_digit_exec(u / 16));
                out.push(hex_digit_exec(u % 16));
            } else {
                out.push(c);
            }
        }
        proof {
            lemma_esc_concat(s@.take(i as int), seq![s@[i as int]]);
            assert(s@.take(i as int + 1) =~= s@.take(i as int) + seq![s@[i as int]]);
            assert(seq![s@[i as int]].skip(1) =~= Seq::<char>::empty());
            assert(esc(Seq::<char>::empty()) =~= Seq::<char>::empty());
            assert(esc(seq![s@[i as int]]) =~= esc_char(s@[i as int]));
            assert(out@ =~= old(out)@ + seq!['"'] + esc(s@.take(i as int + 1)));
        }
        i += 1;
    }
    out.push('"');
    proof {
        assert(s@.take(s@.len() as int) =~= s@);
        assert(out@ =~= old(out)@ + quoted(s@));
    }
}

/// Append one document's frequency object.
fn push_tf(tf: &TermFreq, out: &mut Vec<char>)
    ensures
        final(out)@ == old(out)@ + tf_json(tf@),
{
    proof {
        lemma_tf_view(tf);
    }
    let ghost items = tf@.map_values(|e: (Seq<char>, nat)| tf_item(e));
    out.push('{');
    let mut i: usize = 0;
    while i < tf.entries.len()
        invariant
            i <= tf.entries@.len(),
            tf@ == tf_entries_view(tf.entries@),
            tf@.len() == tf.entries@.len(),
            items == tf@.map_values(|e: (Seq<char>, nat)| tf_item(e)),
            out@ == old(out)@ + seq!['{'] + joined(items.take(i as int)),
        decreases tf.entries@.len() - i,
    {
        if i > 0 {
            out.push(',');
        }
        push_quoted(tf.entries[i].0.as_slice(), out);
        out.push(':');
        push_dec(tf.entries[i].1, out);
        proof {
            assert(items.take(i as int + 1) =~= items.take(i as int).push(items[i as int]));
            lemma_joined_snoc(items.take(i as int), items[i as int]);
            assert(tf@[i as int] == (tf.entries@[i as int].0@, tf.entries@[i as int].1 as nat));
            assert(items[i as int] == tf_item(tf@[i as int]));
            assert(out@ =~= old(out)@ + seq!['{'] + joined(items.take(i as int + 1)));
        }
        i += 1;
    }
    out.push('}');
    proof {
        assert(items.take(items.len() as int) =~= items);
        assert(out@ =~= old(out)@ + tf_json(tf@));
    }
}

/// Serialize the whole corpus index as one canonical document.
pub fn index_to_json(ci: &CorpusIndex) -> (out: Vec<char>)
    ensures
        out@ == index_json(ci@),
{
    proof {
        lemma_ci_view(ci);
    }
    let ghost items = ci@.map_values(|e: (Seq<char>, Seq<(Seq<char>, nat)>)| ci_item(e));
    let mut out: Vec<char> = Vec::new();
    out.push('{');
    let mut i: usize = 0;
    while i < ci.entries.len()
        invariant
            i <= ci.entries@.len(),
            ci@ == results_view(ci.entries@),
            ci@.len() == ci.entries@.len(),
            items == ci@.map_values(|e: (Seq<char>, Seq<(Seq<char>, nat)>)| ci_item(e)),
            out@ == seq!['{'] + joined(items.take(i as int)),
        decreases ci.entries@.len() - i,
    {
        if i > 0 {
            out.push(',');
        }
        push_quoted(ci.entries[i].0.as_slice(), &mut out);
        out.push(':');
        push_tf(&ci.entries[i].1, &mut out);
        proof {
            assert(items.take(i as int + 1) =~= items.take(i as int).push(items[i as int]));
            lemma_joined_snoc(items.take(i as int), items[i as int]);
            assert(ci@[i as int] == (ci.entries@[i as int].0@, ci.entries@[i as int].1@));
            assert(items[i as int] == ci_item(ci@[i as int]));
            assert(out@ =~= seq!['{'] + joined(items.take(i as int + 1)));
        }
        i += 1;
    }
    out.push('}');
    proof {
        assert(items.take(items.len() as int) =~= items);
        assert(out@ =~= index_json(ci@));
    }
    out
}

// ------------------------------------------------------------------
// The strict reader, as a mathematical function.
// ------------------------------------------------------------------

pub open spec fn is_digit(c: char) -> bool {
    c == '0' || c == '1' || c == '2' || c == '3' || c == '4' || c == '5' || c == '6' || c == '7'
        || c == '8' || c == '9'
}

pub open spec fn dv(c: char) -> nat {
    if c == '0' {
        0
    } else if c == '1' {
        1
    } else if c == '2' {
        2
    } else if c == '3' {
        3
    } else if c == '4' {
        4
    } else if c == '5' {
        5
    } else if c == '6' {
        6
    } else if c == '7' {
        7
    } else if c == '8' {
        8
    } else if c == '9' {
        9
    } else {
        0
    }
}

/// Blank characters the reader skips between tokens (never inside a string
/// literal or a number).
pub open spec fn is_json_ws(c: char) -> bool {
    c == ' ' || c == '\t' || c == '\n' || c == '\r'
}

pub open spec fn skip_ws(s: Seq<char>) -> Seq<char>
    decreases s.len(),
{
    if s.len() > 0 && is_json_ws(s[0]) {
        skip_ws(s.skip(1))
    } else {
        s
    }
}

pub proof fn lemma_skip_ws_le(s: Seq<char>)
    ensures
        skip_ws(s).len() <= s.len(),
    decreases s.len(),
{
    if s.len() > 0 && is_json_ws(s[0]) {
        lemma_skip_ws_le(s.skip(1));
    }
}

pub open spec fn is_hex(c: char) -> bool {
    is_digit(c) || c == 'a' || c == 'b' || c == 'c' || c == 'd' || c == 'e' || c == 'f' || c == 'A'
        || c == 'B' || c == 'C' || c == 'D' || c == 'E' || c == 'F'
}

pub open spec fn hv(c: char) -> nat {
    if is_digit(c) {
        dv(c)
    } else if c == 'a' || c == 'A' {
        10
    } else if c == 'b' || c == 'B' {
        11
    } else if c == 'c' || c == 'C' {
        12
    } else if c == 'd' || c == 'D' {
        13
    } else if c == 'e' || c == 'E' {
        14
    } else {
        15
    }
}

/// The code points that are Unicode scalar values: everything but the
/// surrogate range and values above the largest character.
pub open spec fn scalar_code(u: u32) -> bool {
    u < 0xD800 || (0xE000 <= u && u <= 0x10FFFF)
}

/// Relies on char::from_u32, documented to return the character with the
/// given code point, and None exactly for surrogate code points and values
/// above char::MAX.
pub assume_specification[ char::from_u32 ](i: u32) -> (r: Option<char>)
    ensures
        r is Some <==> scalar_code(i),
        r matches Some(c) ==> c as u32 == i,
;

/// The tail of a string literal (after the opening quote): the characters
/// read so far are in `acc`; yields the string and the remaining input.
/// The standard escapes are decoded; a four-digit escape must denote a
/// scalar value (a surrogate, lone or paired, is rejected: a character
/// beyond the four-digit range is written raw in the text instead).
pub open spec fn sp_str_body(s: Seq<char>, acc: Seq<char>) -> Option<(Seq<char>, Seq<char>)>
    decreases s.len(),
{
    if s.len() == 0 {
        None
    } else if s[0] == '"' {
        Some((acc, s.skip(1)))
    } else if s[0] == '\\' {
        if s.len() < 2 {
            None
        } else if s[1] == '"' || s[1] == '\\' || s[1] == '/' {
            sp_str_body(s.skip(2), acc.push(s[1]))
        } else if s[1] == 'b' {
            sp_str_body(s.skip(2), acc.push('\u{8}'))
        } else if s[1] == 'f' {
            sp_str_body(s.skip(2), acc.push('\u{c}'))
        } else if s[1] == 'n' {
            sp_str_body(s.skip(2), acc.push('\n'))
        } else if s[1] == 'r' {
            sp_str_body(s.skip(2), acc.push('\r'))
        } else if s[1] == 't' {
            sp_str_body(s.skip(2), acc.push('\t'))
        } else if s[1] == 'u' {
            if s.len() >= 6 && is_hex(s[2]) && is_hex(s[3]) && is_hex(s[4]) && is_hex(s[5]) {
                let code = ((hv(s[2]) * 16 + hv(s[3])) * 16 + hv(s[4])) * 16 + hv(s[5]);
                if scalar_code(code as u32) {
                    sp_str_body(s.skip(6), acc.push((code as u32) as char))
                } else {
                    None
                }
            } else {
                None
            }
        } else {
            None
        }
    } else {
        sp_str_body(s.skip(1), acc.push(s[0]))
    }
}

pub open spec fn sp_string(s: Seq<char>) -> Option<(Seq<char>, Seq<char>)> {
    if s.len() > 0 && s[0] == '"' {
        sp_str_body(s.skip(1), Seq::empty())
    } else {
        None
    }
}

/// Digits consumed so far give `acc`; fails on machine-word overflow.
pub open spec fn sp_num_loop(s: Seq<char>, acc: nat) -> Option<(nat, Seq<char>)>
    decreases s.len(),
{
    if s.len() > 0 && is_digit(s[0]) {
        if acc * 10 + dv(s[0]) > usize::MAX {
            None
        } else {
            sp_num_loop(s.skip(1), acc * 10 + dv(s[0]))
        }
    } else {
        Some((acc, s))
    }
}

pub open spec fn sp_number(s: Seq<char>) -> Option<(nat, Seq<char>)> {
    if s.len() > 0 && is_digit(s[0]) {
        sp_num_loop(s, 0)
    } else {
        None
    }
}

/// Whether an association sequence already holds a key.
pub open spec fn contains_key_seq<T>(s: Seq<(Seq<char>, T)>, k: Seq<char>) -> bool {
    exists|i: int| 0 <= i < s.len() && (#[trigger] s[i]).0 == k
}

pub proof fn lemma_sp_str_body_consumes(s: Seq<char>, acc: Seq<char>)
    ensures
        match sp_str_body(s, acc) {
            Some((v, rest)) => rest.len() < s.len(),
            None => true,
        },
    decreases s.len(),
{
    if s.len() == 0 {
    } else if s[0] == '"' {
    } else if s[0] == '\\' {
        if s.len() < 2 {
        } else if s[1] == '"' || s[1] == '\\' || s[1] == '/' {
            lemma_sp_str_body_consumes(s.skip(2), acc.push(s[1]));
        } else if s[1] == 'b' {
            lemma_sp_str_body_consumes(s.skip(2), acc.push('\u{8}'));
        } else if s[1] == 'f' {
            lemma_sp_str_body_consumes(s.skip(2), acc.push('\u{c}'));
        } else if s[1] == 'n' {
            lemma_sp_str_body_consumes(s.skip(2), acc.push('\n'));
        } else if s[1] == 'r' {
            lemma_sp_str_body_consumes(s.skip(2), acc.push('\r'));
        } else if s[1] == 't' {
            lemma_sp_str_body_consumes(s.skip(2), acc.push('\t'));
        } else if s[1] == 'u' {
            if s.len() >= 6 && is_hex(s[2]) && is_hex(s[3]) && is_hex(s[4]) && is_hex(s[5]) {
                let code = ((hv(s[2]) * 16 + hv(s[3])) * 16 + hv(s[4])) * 16 + hv(s[5]);
                if scalar_code(code as u32) {
                    lemma_sp_str_body_consumes(s.skip(6), acc.push((code as u32) as char));
                }
            }
        }
    } else {
        lemma_sp_str_body_consumes(s.skip(1), acc.push(s[0]));
    }
}

pub proof fn lemma_sp_string_consumes(s: Seq<char>)
    ensures
        match sp_string(s) {
            Some((v, rest)) => rest.len() + 2 <= s.len(),
            None => true,
        },
{
    if s.len() > 0 && s[0] == '"' {
        lemma_sp_str_body_consumes(s.skip(1), Seq::empty());
    }
}

pub proof fn lemma_sp_num_loop_consumes(s: Seq<char>, acc: nat)
    ensures
        match sp_num_loop(s, acc) {
            Some((n, rest)) => rest.len() <= s.len(),
            None => true,
        },
    decreases s.len(),
{
    if s.len() > 0 && is_digit(s[0]) && acc * 10 + dv(s[0]) <= usize::MAX {
        lemma_sp_num_loop_consumes(s.skip(1), acc * 10 + dv(s[0]));
    }
}

pub proof fn lemma_sp_number_consumes(s: Seq<char>)
    ensures
        match sp_number(s) {
            Some((n, rest)) => rest.len() < s.len(),
            None => true,
        },
{
    if s.len() > 0 && is_digit(s[0]) {
        if 0 * 10 + dv(s[0]) <= usize::MAX {
            lemma_sp_num_loop_consumes(s.skip(1), dv(s[0]));
        }
    }
}

/// The entries of a frequency object, after its opening brace and any
/// blanks; duplicate terms and zero counts are rejected.
pub open spec fn sp_tf_entries(s: Seq<char>, acc: Seq<(Seq<char>, nat)>) -> Option<
    (Seq<(Seq<char>, nat)>, Seq<char>),
>
    decreases s.len(),
        via sp_tf_entries_decreases
{
    match sp_string(s) {
        None => None,
        Some((k, r1x)) => {
            let r1 = skip_ws(r1x);
            if contains_key_seq(acc, k) {
                None
            } else if r1.len() > 0 && r1[0] == ':' {
                match sp_number(skip_ws(r1.skip(1))) {
                    None => None,
                    Some((n, r3x)) => {
                        let r3 = skip_ws(r3x);
                        if n < 1 {
                            None
                        } else if r3.len() > 0 && r3[0] == ',' {
                            sp_tf_entries(skip_ws(r3.skip(1)), acc.push((k, n)))
                        } else if r3.len() > 0 && r3[0] == '}' {
                            Some((acc.push((k, n)), r3.skip(1)))
                        } else {
                            None
                        }
                    },
                }
            } else {
                None
            }
        },
    }
}

#[via_fn]
proof fn sp_tf_entries_decreases(s: Seq<char>, acc: Seq<(Seq<char>, nat)>) {
    lemma_sp_string_consumes(s);
    match sp_string(s) {
        None => {},
        Some((k, r1x)) => {
            lemma_skip_ws_le(r1x);
            let r1 = skip_ws(r1x);
            if r1.len() > 0 && r1[0] == ':' {
                lemma_skip_ws_le(r1.skip(1));
                lemma_sp_number_consumes(skip_ws(r1.skip(1)));
                match sp_number(skip_ws(r1.skip(1))) {
                    None => {},
                    Some((n, r3x)) => {
                        lemma_skip_ws_le(r3x);
                        let r3 = skip_ws(r3x);
                        if r3.len() > 0 {
                            lemma_skip_ws_le(r3.skip(1));
                        }
                    },
                }
            }
        },
    }
}

/// A whole frequency object: braces around comma-separated entries, blanks
/// allowed between tokens.
pub open spec fn sp_tf(s: Seq<char>) -> Option<(Seq<(Seq<char>, nat)>, Seq<char>)> {
    if s.len() > 0 && s[0] == '{' {
        let r = skip_ws(s.skip(1));
        if r.len() > 0 && r[0] == '}' {
            Some((Seq::empty(), r.skip(1)))
        } else {
            sp_tf_entries(r, Seq::empty())
        }
    } else {
        None
    }
}

pub proof fn lemma_sp_tf_entries_consumes(s: Seq<char>, acc: Seq<(Seq<char>, nat)>)
    ensures
        match sp_tf_entries(s, acc) {
            Some((m, rest)) => rest.len() < s.len(),
            None => true,
        },
    decreases s.len(),
{
    lemma_sp_string_consumes(s);
    match sp_string(s) {
        None => {},
        Some((k, r1x)) => {
            lemma_skip_ws_le(r1x);
            let r1 = skip_ws(r1x);
            if r1.len() > 0 && r1[0] == ':' {
                lemma_skip_ws_le(r1.skip(1));
                lemma_sp_number_consumes(skip_ws(r1.skip(1)));
                match sp_number(skip_ws(r1.skip(1))) {
                    None => {},
                    Some((n, r3x)) => {
                        lemma_skip_ws_le(r3x);
                        let r3 = skip_ws(r3x);
                        if n >= 1 && r3.len() > 0 && r3[0] == ',' {
                            lemma_skip_ws_le(r3.skip(1));
                            lemma_sp_tf_entries_consumes(skip_ws(r3.skip(1)), acc.push((k, n)));
                        }
                    },
                }
            }
        },
    }
}

pub proof fn lemma_sp_tf_consumes(s: Seq<char>)
    ensures
        match sp_tf(s) {
            Some((m, rest)) => rest.len() < s.len(),
            None => true,
        },
{
    if s.len() > 0 && s[0] == '{' {
        lemma_skip_ws_le(s.skip(1));
        let r = skip_ws(s.skip(1));
        if !(r.len() > 0 && r[0] == '}') {
            lemma_sp_tf_entries_consumes(r, Seq::empty());
        }
    }
}

/// The entries of the outer object: paths mapped to frequency objects;
/// duplicate paths are rejected, blanks between tokens are allowed.
pub open spec fn sp_ci_entries(
    s: Seq<char>,
    acc: Seq<(Seq<char>, Seq<(Seq<char>, nat)>)>,
) -> Option<(Seq<(Seq<char>, Seq<(Seq<char>, nat)>)>, Seq<char>)>
    decreases s.len(),
        via sp_ci_entries_decreases
{
    match sp_string(s) {
        None => None,
        Some((k, r1x)) => {
            let r1 = skip_ws(r1x);
            if contains_key_seq(acc, k) {
                None
            } else if r1.len() > 0 && r1[0] == ':' {
                match sp_tf(skip_ws(r1.skip(1))) {
                    None => None,
                    Some((m, r3x)) => {
                        let r3 = skip_ws(r3x);
                        if r3.len() > 0 && r3[0] == ',' {
                            sp_ci_entries(skip_ws(r3.skip(1)), acc.push((k, m)))
                        } else if r3.len() > 0 && r3[0] == '}' {
                            Some((acc.push((k, m)), r3.skip(1)))
                        } else {
                            None
                        }
                    },
                }
            } else {
                None
            }
        },
    }
}

#[via_fn]
proof fn sp_ci_entries_decreases(s: Seq<char>, acc: Seq<(Seq<char>, Seq<(Seq<char>, nat)>)>) {
    lemma_sp_string_consumes(s);
    match sp_string(s) {
        None => {},
        Some((k, r1x)) => {
            lemma_skip_ws_le(r1x);
            let r1 = skip_ws(r1x);
            if r1.len() > 0 && r1[0] == ':' {
                lemma_skip_ws_le(r1.skip(1));
                lemma_sp_tf_consumes(skip_ws(r1.skip(1)));
                match sp_tf(skip_ws(r1.skip(1))) {
                    None => {},
                    Some((m, r3x)) => {
                        lemma_skip_ws_le(r3x);
                        let r3 = skip_ws(r3x);
                        if r3.len() > 0 {
                            lemma_skip_ws_le(r3.skip(1));
                        }
                    },
                }
            }
        },
    }
}

/// The whole document: one outer object with nothing but blanks around it.
pub open spec fn sp_parse_index(s0: Seq<char>) -> Option<Seq<(Seq<char>, Seq<(Seq<char>, nat)>)>> {
    let s = skip_ws(s0);
    let outer = if s.len() > 0 && s[0] == '{' {
        let r = skip_ws(s.skip(1));
        if r.len() > 0 && r[0] == '}' {
            Some((Seq::<(Seq<char>, Seq<(Seq<char>, nat)>)>::empty(), r.skip(1)))
        } else {
            sp_ci_entries(r, Seq::empty())
        }
    } else {
        None
    };
    match outer {
        None => None,
        Some((m, rest)) => if skip_ws(rest).len() == 0 {
            Some(m)
        } else {
            None
        },
    }
}

// ------------------------------------------------------------------
// The executable reader.
// ------------------------------------------------------------------

fn digit_of(c: char) -> (r: Option<usize>)
    ensures
        match r {
            Some(d) => is_digit(c) && d == dv(c) && d <= 9,
            None => !is_digit(c),
        },
{
    if c == '0' {
        Some(0)
    } else if c == '1' {
        Some(1)
    } else if c == '2' {
        Some(2)
    } else if c == '3' {
        Some(3)
    } else if c == '4' {
        Some(4)
    } else if c == '5' {
        Some(5)
    } else if c == '6' {
        Some(6)
    } else if c == '7' {
        Some(7)
    } else if c == '8' {
        Some(8)
    } else if c == '9' {
        Some(9)
    } else {
        None
    }
}

/// Advance past blanks between tokens.
fn skip_blanks(s: &[char], pos: usize) -> (p2: usize)
    requires
        pos <= s@.len(),
    ensures
        pos <= p2 <= s@.len(),
        s@.skip(p2 as int) == skip_ws(s@.skip(pos as int)),
{
    let mut p = pos;
    while p < s.len() && (s[p] == ' ' || s[p] == '\t' || s[p] == '\n' || s[p] == '\r')
        invariant
            pos <= p <= s@.len(),
            skip_ws(s@.skip(p as int)) == skip_ws(s@.skip(pos as int)),
        decreases s@.len() - p,
    {
        proof {
            assert(s@.skip(p as int)[0] == s@[p as int]);
            assert(s@.skip(p as int).skip(1) =~= s@.skip(p as int + 1));
        }
        p += 1;
    }
    proof {
        if p < s@.len() {
            assert(s@.skip(p as int)[0] == s@[p as int]);
        }
        assert(skip_ws(s@.skip(p as int)) == s@.skip(p as int));
    }
    p
}

fn hex_val(c: char) -> (r: Option<usize>)
    ensures
        match r {
            Some(d) => is_hex(c) && d == hv(c) && d <= 15,
            None => !is_hex(c),
        },
{
    match digit_of(c) {
        Some(d) => Some(d),
        None => {
            if c == 'a' || c == 'A' {
                Some(10)
            } else if c == 'b' || c == 'B' {
                Some(11)
            } else if c == 'c' || c == 'C' {
                Some(12)
            } else if c == 'd' || c == 'D' {
                Some(13)
            } else if c == 'e' || c == 'E' {
                Some(14)
            } else if c == 'f' || c == 'F' {
                Some(15)
            } else {
                None
            }
        },
    }
}

fn parse_string(s: &[char], pos: usize) -> (r: Result<(Vec<char>, usize), ErrorKind>)
    requires
        pos <= s@.len(),
    ensures
        match r {
            Ok((v, p2)) => pos + 2 <= p2 <= s@.len() && sp_string(s@.skip(pos as int)) == Some(
                (v@, s@.skip(p2 as int)),
            ),
            Err(e) => e == ErrorKind::Serialization && sp_string(s@.skip(pos as int)) is None,
        },
{
    if pos >= s.len() || s[pos] != '"' {
        return Err(ErrorKind::Serialization);
    }
    let mut v: Vec<char> = Vec::new();
    let mut p = pos + 1;
    proof {
        assert(s@.skip(pos as int).skip(1) =~= s@.skip(pos as int + 1));
    }
    loop
        invariant
            pos + 1 <= p <= s@.len(),
            pos < s@.len(),
            s@[pos as int] == '"',
            sp_str_body(s@.skip(p as int), v@) == sp_str_body(
                s@.skip(pos as int + 1),
                Seq::empty(),
            ),
            sp_string(s@.skip(pos as int)) == sp_str_body(s@.skip(pos as int + 1), Seq::empty()),
        decreases s@.len() - p,
    {
        if p >= s.len() {
            return Err(ErrorKind::Serialization);
        }
        let c = s[p];
        proof {
            assert(s@.skip(p as int)[0] == c);
        }
        if c == '"' {
            proof {
                assert(s@.skip(p as int).skip(1) =~= s@.skip(p as int + 1));
            }
            return Ok((v, p + 1));
        } else if c == '\\' {
            if p + 1 >= s.len() {
                return Err(ErrorKind::Serialization);
            }
            let d = s[p + 1];
            proof {
                assert(s@.skip(p as int)[1] == d);
                assert(s@.skip(p as int).skip(2) =~= s@.skip(p as int + 2));
            }
            if d == '"' || d == '\\' || d == '/' {
                v.push(d);
                p += 2;
            } else if d == 'b' {
                v.push('\u{8}');
                p += 2;
            } else if d == 'f' {
                v.push('\u{c}');
                p += 2;
            } else if d == 'n' {
                v.push('\n');
                p += 2;
            } else if d == 'r' {
                v.push('\r');
                p += 2;
            } else if d == 't' {
                v.push('\t');
                p += 2;
            } else if d == 'u' {
                if s.len() - p < 6 {
                    proof {
                        assert(s@.skip(p as int).len() < 6);
                    }
                    return Err(ErrorKind::Serialization);
                }
                proof {
                    assert(s@.skip(p as int)[2] == s@[p as int + 2]);
                    assert(s@.skip(p as int)[3] == s@[p as int + 3]);
                    assert(s@.skip(p as int)[4] == s@[p as int + 4]);
                    assert(s@.skip(p as int)[5] == s@[p as int + 5]);
                    assert(s@.skip(p as int).skip(6) =~= s@.skip(p as int + 6));
                }
                let h2 = hex_val(s[p + 2]);
                let h3 = hex_val(s[p + 3]);
                let h4 = hex_val(s[p + 4]);
                let h5 = hex_val(s[p + 5]);
                if h2.is_none() || h3.is_none() || h4.is_none() || h5.is_none() {
                    return Err(ErrorKind::Serialization);
                }
                let code: usize = ((h2.unwrap() * 16 + h3.unwrap()) * 16 + h4.unwrap()) * 16
                    + h5.unwrap();
                if 0xD800 <= code && code < 0xE000 {
                    proof {
                        assert(!scalar_code(code as u32));
                    }
                    return Err(ErrorKind::Serialization);
                }
                proof {
                    assert(scalar_code(code as u32));
                }
                match char::from_u32(code as u32) {
                    Some(ch) => {
                        proof {
                            vstd::utf8::char_u32_cast(ch, code as u32);
                        }
                        v.push(ch);
                        p += 6;
                    },
                    None => {
                        proof {
                            assert(false);
                        }
                        return Err(ErrorKind::Serialization);
                    },
                }
            } else {
                return Err(ErrorKind::Serialization);
            }
        } else {
            proof {
                assert(s@.skip(p as int).skip(1) =~= s@.skip(p as int + 1));
            }
            v.push(c);
            p += 1;
        }
    }
}

fn parse_number(s: &[char], pos: usize) -> (r: Result<(usize, usize), ErrorKind>)
    requires
        pos <= s@.len(),
    ensures
        match r {
            Ok((n, p2)) => pos < p2 <= s@.len() && sp_number(s@.skip(pos as int)) == Some(
                (n as nat, s@.skip(p2 as int)),
            ),
            Err(e) => e == ErrorKind::Serialization && sp_number(s@.skip(pos as int)) is None,
        },
{
    if pos >= s.len() {
        return Err(ErrorKind::Serialization);
    }
    let first = digit_of(s[pos]);
    proof {
        assert(s@.skip(pos as int)[0] == s@[pos as int]);
    }
    if first.is_none() {
        return Err(ErrorKind::Serialization);
    }
    let mut acc: usize = 0;
    let mut p = pos;
    loop
        invariant
            pos <= p <= s@.len(),
            pos < s@.len(),
            is_digit(s@[pos as int]),
            sp_number(s@.skip(pos as int)) == sp_num_loop(s@.skip(p as int), acc as nat),
            p == pos ==> acc == 0,
        decreases s@.len() - p,
    {
        let d_opt = if p < s.len() {
            digit_of(s[p])
        } else {
            None
        };
        proof {
            if p < s@.len() {
                assert(s@.skip(p as int)[0] == s@[p as int]);
            }
        }
        match d_opt {
            Some(d) => {
                let max_q = usize::MAX / 10;
                let max_r = usize::MAX % 10;
                if acc > max_q || (acc == max_q && d > max_r) {
                    proof {
                        assert((acc as nat) * 10 + dv(s@[p as int]) > usize::MAX as nat);
                    }
                    return Err(ErrorKind::Serialization);
                }
                proof {
                    assert((acc as nat) * 10 + dv(s@[p as int]) <= usize::MAX as nat);
                    assert(s@.skip(p as int).skip(1) =~= s@.skip(p as int + 1));
                }
                acc = acc * 10 + d;
                p += 1;
            },
            None => {
                proof {
                    assert(sp_num_loop(s@.skip(p as int), acc as nat) == Some(
                        ((acc as nat), s@.skip(p as int)),
                    ));
                }
                return Ok((acc, p));
            },
        }
    }
}

/// Read one frequency object, strict canonical form.
fn parse_tf(s: &[char], pos: usize) -> (r: Result<(TermFreq, usize), ErrorKind>)
    requires
        pos <= s@.len(),
    ensures
        match r {
            Ok((tf, p2)) => tf.wf() && pos < p2 <= s@.len() && sp_tf(s@.skip(pos as int)) == Some(
                (tf@, s@.skip(p2 as int)),
            ),
            Err(e) => e == ErrorKind::Serialization && sp_tf(s@.skip(pos as int)) is None,
        },
{
    if pos >= s.len() || s[pos] != '{' {
        return Err(ErrorKind::Serialization);
    }
    proof {
        assert(s@.skip(pos as int)[0] == '{');
        assert(s@.skip(pos as int).skip(1) =~= s@.skip(pos as int + 1));
    }
    let pb = skip_blanks(s, pos + 1);
    if pb < s.len() && s[pb] == '}' {
        proof {
            assert(s@.skip(pb as int)[0] == '}');
            assert(s@.skip(pb as int).skip(1) =~= s@.skip(pb as int + 1));
        }
        return Ok((TermFreq::new(), pb + 1));
    }
    proof {
        if pb < s@.len() {
            assert(s@.skip(pb as int)[0] == s@[pb as int]);
        }
    }
    let mut tf = TermFreq::new();
    let mut p = pb;
    loop
        invariant
            pos < p <= s@.len(),
            tf.wf(),
            sp_tf(s@.skip(pos as int)) == sp_tf_entries(s@.skip(p as int), tf@),
        decreases s@.len() - p,
    {
        let key = match parse_string(s, p) {
            Ok(kp) => kp,
            Err(e) => {
                return Err(e);
            },
        };
        let (k, p1x) = key;
        let p1 = skip_blanks(s, p1x);
        if tf.find_index(k.as_slice()).is_some() {
            proof {
                assert(contains_key_seq(tf@, k@));
            }
            return Err(ErrorKind::Serialization);
        }
        proof {
            assert(!contains_key_seq(tf@, k@));
        }
        if p1 >= s.len() || s[p1] != ':' {
            proof {
                if p1 < s@.len() {
                    assert(s@.skip(p1 as int)[0] == s@[p1 as int]);
                }
            }
            return Err(ErrorKind::Serialization);
        }
        proof {
            assert(s@.skip(p1 as int)[0] == ':');
            assert(s@.skip(p1 as int).skip(1) =~= s@.skip(p1 as int + 1));
        }
        let p2 = skip_blanks(s, p1 + 1);
        let num = match parse_number(s, p2) {
            Ok(np) => np,
            Err(e) => {
                return Err(e);
            },
        };
        let (n, p3x) = num;
        let p3 = skip_blanks(s, p3x);
        if n < 1 {
            return Err(ErrorKind::Serialization);
        }
        let ghost tf_pre = tf@;
        proof {
            lemma_tf_view(&tf);
        }
        let ghost entries_pre = tf.entries@;
        tf.entries.push((k, n));
        proof {
            lemma_tf_view(&tf);
            assert(tf.entries@ == entries_pre.push((k, n)));
            assert(tf@ =~= tf_pre.push((k@, n as nat)));
            assert(tf_wf(tf@)) by {
                assert(forall|j: int| 0 <= j < tf_pre.len() ==> tf@[j] == tf_pre[j]);
                assert(tf@[tf@.len() - 1] == (k@, n as nat));
            }
        }
        if p3 < s.len() && s[p3] == ',' {
            proof {
                assert(s@.skip(p3 as int)[0] == ',');
                assert(s@.skip(p3 as int).skip(1) =~= s@.skip(p3 as int + 1));
            }
            p = skip_blanks(s, p3 + 1);
        } else if p3 < s.len() && s[p3] == '}' {
            proof {
                assert(s@.skip(p3 as int)[0] == '}');
                assert(s@.skip(p3 as int).skip(1) =~= s@.skip(p3 as int + 1));
            }
            return Ok((tf, p3 + 1));
        } else {
            proof {
                if p3 < s@.len() {
                    assert(s@.skip(p3 as int)[0] == s@[p3 as int]);
                }
            }
            return Err(ErrorKind::Serialization);
        }
    }
}

/// Read a whole persisted index: one outer object, blanks allowed between
/// tokens, nothing but blanks after it.
#[verifier::rlimit(80)]
pub fn json_to_index(text: &[char]) -> (r: Result<CorpusIndex, ErrorKind>)
    ensures
        match r {
            Ok(ci) => ci.wf() && sp_parse_index(text@) == Some(ci@),
            Err(e) => e == ErrorKind::Serialization && sp_parse_index(text@) is None,
        },
{
    let s = text;
    proof {
        assert(s@.skip(0) =~= s@);
    }
    let p0 = skip_blanks(s, 0);
    if p0 >= s.len() || s[p0] != '{' {
        proof {
            if p0 < s@.len() {
                assert(s@.skip(p0 as int)[0] == s@[p0 as int]);
            }
        }
        return Err(ErrorKind::Serialization);
    }
    proof {
        assert(s@.skip(p0 as int)[0] == '{');
        assert(s@.skip(p0 as int).skip(1) =~= s@.skip(p0 as int + 1));
    }
    let pb = skip_blanks(s, p0 + 1);
    if pb < s.len() && s[pb] == '}' {
        proof {
            assert(s@.skip(pb as int)[0] == '}');
            assert(s@.skip(pb as int).skip(1) =~= s@.skip(pb as int + 1));
        }
        let pe = skip_blanks(s, pb + 1);
        if pe == s.len() {
            return Ok(CorpusIndex::new());
        } else {
            return Err(ErrorKind::Serialization);
        }
    }
    proof {
        if pb < s@.len() {
            assert(s@.skip(pb as int)[0] == s@[pb as int]);
        }
    }
    let mut ci = CorpusIndex::new();
    let mut p: usize = pb;
    loop
        invariant
            s@ == text@,
            p <= s@.len(),
            ci.wf(),
            sp_parse_index(text@) == (match sp_ci_entries(s@.skip(p as int), ci@) {
                None => None::<Seq<(Seq<char>, Seq<(Seq<char>, nat)>)>>,
                Some((m, rest)) => if skip_ws(rest).len() == 0 {
                    Some(m)
                } else {
                    None
                },
            }),
        decreases s@.len() - p,
    {
        let ghost p_entry = p;
        let key = match parse_string(s, p) {
            Ok(kp) => kp,
            Err(e) => {
                proof {
                    assert(sp_ci_entries(s@.skip(p as int), ci@) is None);
                    assert(sp_parse_index(text@) is None);
                }
                return Err(e);
            },
        };
        let (k, p1x) = key;
        let p1 = skip_blanks(s, p1x);
        if ci.find_index(k.as_slice()).is_some() {
            proof {
                assert(contains_key_seq(ci@, k@));
                assert(sp_ci_entries(s@.skip(p as int), ci@) is None);
                assert(sp_parse_index(text@) is None);
            }
            return Err(ErrorKind::Serialization);
        }
        proof {
            assert(!contains_key_seq(ci@, k@));
        }
        if p1 >= s.len() || s[p1] != ':' {
            proof {
                if p1 < s@.len() {
                    assert(s@.skip(p1 as int)[0] == s@[p1 as int]);
                }
                assert(sp_ci_entries(s@.skip(p as int), ci@) is None);
                assert(sp_parse_index(text@) is None);
            }
            return Err(ErrorKind::Serialization);
        }
        proof {
            assert(s@.skip(p1 as int)[0] == ':');
            assert(s@.skip(p1 as int).skip(1) =~= s@.skip(p1 as int + 1));
        }
        let p2 = skip_blanks(s, p1 + 1);
        let tfp = match parse_tf(s, p2) {
            Ok(tp) => tp,
            Err(e) => {
                proof {
                    assert(sp_ci_entries(s@.skip(p as int), ci@) is None);
                    assert(sp_parse_index(text@) is None);
                }
                return Err(e);
            },
        };
        let (tf, p3x) = tfp;
        let p3 = skip_blanks(s, p3x);
        let ghost ci_pre = ci@;
        proof {
            lemma_ci_view(&ci);
        }
        let ghost centries_pre = ci.entries@;
        ci.entries.push((k, tf));
        proof {
            lemma_ci_view(&ci);
            assert(ci.entries@ == centries_pre.push((k, tf)));
            assert(ci@ =~= ci_pre.push((k@, tf@)));
            assert(index_wf(ci@)) by {
                assert(forall|j: int| 0 <= j < ci_pre.len() ==> ci@[j] == ci_pre[j]);
                assert(ci@[ci@.len() - 1] == (k@, tf@));
            }
        }
        if p3 < s.len() && s[p3] == ',' {
            proof {
                assert(s@.skip(p3 as int)[0] == ',');
                assert(s@.skip(p3 as int).skip(1) =~= s@.skip(p3 as int + 1));
            }
            p = skip_blanks(s, p3 + 1);
            proof {
                assert(sp_ci_entries(s@.skip(p_entry as int), ci_pre) == sp_ci_entries(
                    s@.skip(p as int),
                    ci@,
                ));
            }
        } else if p3 < s.len() && s[p3] == '}' {
            proof {
                assert(s@.skip(p3 as int)[0] == '}');
                assert(s@.skip(p3 as int).skip(1) =~= s@.skip(p3 as int + 1));
                assert(sp_ci_entries(s@.skip(p_entry as int), ci_pre) == Some(
                    (ci@, s@.skip(p3 as int + 1)),
                ));
            }
            let pe = skip_blanks(s, p3 + 1);
            if pe == s.len() {
                proof {
                    assert(s@.skip(pe as int).len() == 0);
                    assert(sp_parse_index(text@) == Some(ci@));
                }
                return Ok(ci);
            } else {
                proof {
                    assert(s@.skip(pe as int).len() > 0);
                    assert(sp_parse_index(text@) is None);
                }
                return Err(ErrorKind::Serialization);
            }
        } else {
            proof {
                if p3 < s@.len() {
                    assert(s@.skip(p3 as int)[0] == s@[p3 as int]);
                }
                assert(sp_ci_entries(s@.skip(p_entry as int), ci_pre) is None);
                assert(sp_parse_index(text@) is None);
            }
            return Err(ErrorKind::Serialization);
        }
    }
}

// ------------------------------------------------------------------
// The round trip: reading back what was written.
// ------------------------------------------------------------------

proof fn lemma_hex_digit(d: nat)
    requires
        d < 16,
    ensures
        is_hex(hex_digit(d)),
        hv(hex_digit(d)) == d,
{
}

pub proof fn lemma_str_body_rt(t: Seq<char>, rest: Seq<char>, acc: Seq<char>)
    ensures
        sp_str_body(esc(t) + seq!['"'] + rest, acc) == Some((acc + t, rest)),
    decreases t.len(),
{
    let s = esc(t) + seq!['"'] + rest;
    if t.len() == 0 {
        assert(esc(t) =~= Seq::<char>::empty());
        assert(s =~= seq!['"'] + rest);
        assert(s[0] == '"');
        assert(s.skip(1) =~= rest);
        assert(acc + t =~= acc);
    } else {
        let c = t[0];
        assert(esc(t) == esc_char(c) + esc(t.skip(1)));
        lemma_str_body_rt(t.skip(1), rest, acc.push(c));
        assert(acc.push(c) + t.skip(1) =~= acc + t);
        if c == '"' || c == '\\' {
            assert(s[0] == '\\');
            assert(s[1] == c);
            assert(s.skip(2) =~= esc(t.skip(1)) + seq!['"'] + rest);
        } else if (c as u32) < 0x20 {
            let u = c as u32;
            let hi = (u / 16) as nat;
            let lo = (u % 16) as nat;
            lemma_hex_digit(hi);
            lemma_hex_digit(lo);
            assert(s[0] == '\\');
            assert(s[1] == 'u');
            assert(s[2] == '0');
            assert(s[3] == '0');
            assert(s[4] == hex_digit(hi));
            assert(s[5] == hex_digit(lo));
            assert(s.len() >= 6);
            assert(is_hex('0') && hv('0') == 0);
            let code = ((hv(s[2]) * 16 + hv(s[3])) * 16 + hv(s[4])) * 16 + hv(s[5]);
            assert(code == hi * 16 + lo);
            assert(code as u32 == u);
            assert(scalar_code(code as u32));
            vstd::utf8::char_u32_cast(c, u);
            assert((code as u32) as char == c);
            assert(s.skip(6) =~= esc(t.skip(1)) + seq!['"'] + rest);
        } else {
            assert(s[0] == c);
            assert(s.skip(1) =~= esc(t.skip(1)) + seq!['"'] + rest);
        }
    }
}

pub proof fn lemma_string_rt(t: Seq<char>, rest: Seq<char>)
    ensures
        sp_string(quoted(t) + rest) == Some((t, rest)),
{
    let s = quoted(t) + rest;
    assert(s[0] == '"');
    assert(s.skip(1) =~= esc(t) + seq!['"'] + rest);
    lemma_str_body_rt(t, rest, Seq::empty());
    assert(Seq::empty() + t =~= t);
}

pub open spec fn all_digits(ds: Seq<char>) -> bool {
    forall|i: int| 0 <= i < ds.len() ==> is_digit(#[trigger] ds[i])
}

/// The value of a digit run read left to right onto `acc`.
pub open spec fn num_val(acc: nat, ds: Seq<char>) -> nat
    decreases ds.len(),
{
    if ds.len() == 0 {
        acc
    } else {
        num_val(acc * 10 + dv(ds[0]), ds.skip(1))
    }
}

proof fn lemma_num_val_ge(acc: nat, ds: Seq<char>)
    ensures
        num_val(acc, ds) >= acc,
    decreases ds.len(),
{
    if ds.len() > 0 {
        lemma_num_val_ge(acc * 10 + dv(ds[0]), ds.skip(1));
    }
}

proof fn lemma_num_val_snoc(acc: nat, ds: Seq<char>, c: char)
    ensures
        num_val(acc, ds.push(c)) == num_val(acc, ds) * 10 + dv(c),
    decreases ds.len(),
{
    if ds.len() == 0 {
        assert(ds.push(c)[0] == c);
        assert(ds.push(c).skip(1) =~= Seq::<char>::empty());
        assert(num_val(acc * 10 + dv(c), Seq::<char>::empty()) == acc * 10 + dv(c));
    } else {
        assert(ds.push(c)[0] == ds[0]);
        assert(ds.push(c).skip(1) =~= ds.skip(1).push(c));
        lemma_num_val_snoc(acc * 10 + dv(ds[0]), ds.skip(1), c);
    }
}

proof fn lemma_num_loop_rt(ds: Seq<char>, rest: Seq<char>, acc: nat)
    requires
        all_digits(ds),
        rest.len() == 0 || !is_digit(rest[0]),
        num_val(acc, ds) <= usize::MAX,
    ensures
        sp_num_loop(ds + rest, acc) == Some((num_val(acc, ds), rest)),
    decreases ds.len(),
{
    let s = ds + rest;
    if ds.len() == 0 {
        assert(s =~= rest);
    } else {
        assert(s[0] == ds[0]);
        assert(is_digit(ds[0]));
        let v = acc * 10 + dv(ds[0]);
        assert forall|i: int| 0 <= i < ds.skip(1).len() implies is_digit(
            #[trigger] ds.skip(1)[i],
        ) by {
            assert(ds.skip(1)[i] == ds[i + 1]);
        }
        lemma_num_val_ge(v, ds.skip(1));
        assert(v <= usize::MAX);
        assert(s.skip(1) =~= ds.skip(1) + rest);
        lemma_num_loop_rt(ds.skip(1), rest, v);
    }
}

proof fn lemma_dec_digits_props(n: nat)
    ensures
        dec_digits(n).len() >= 1,
        all_digits(dec_digits(n)),
        num_val(0, dec_digits(n)) == n,
    decreases n,
{
    if n < 10 {
        assert(is_digit(digit_char(n)));
        assert(dv(digit_char(n)) == n);
        assert(seq![digit_char(n)].skip(1) =~= Seq::<char>::empty());
        assert(num_val(dv(digit_char(n)), Seq::<char>::empty()) == dv(digit_char(n)));
        assert(num_val(0, dec_digits(n)) == n);
    } else {
        lemma_dec_digits_props(n / 10);
        lemma_num_val_snoc(0, dec_digits(n / 10), digit_char(n % 10));
        assert(is_digit(digit_char(n % 10)));
        assert(dv(digit_char(n % 10)) == n % 10);
        assert forall|i: int| 0 <= i < dec_digits(n).len() implies is_digit(
            #[trigger] dec_digits(n)[i],
        ) by {
            if i < dec_digits(n / 10).len() {
                assert(dec_digits(n)[i] == dec_digits(n / 10)[i]);
            } else {
                assert(dec_digits(n)[i] == digit_char(n % 10));
            }
        }
        assert(num_val(0, dec_digits(n)) == (n / 10) * 10 + n % 10);
        assert((n / 10) * 10 + n % 10 == n);
    }
}

proof fn lemma_number_rt(n: nat, rest: Seq<char>)
    requires
        n <= usize::MAX,
        rest.len() == 0 || !is_digit(rest[0]),
    ensures
        sp_number(dec_digits(n) + rest) == Some((n, rest)),
{
    lemma_dec_digits_props(n);
    let s = dec_digits(n) + rest;
    assert(s[0] == dec_digits(n)[0]);
    assert(is_digit(s[0]));
    lemma_num_loop_rt(dec_digits(n), rest, 0);
}

proof fn lemma_tf_entries_rt(
    entries: Seq<(Seq<char>, nat)>,
    acc: Seq<(Seq<char>, nat)>,
    rest: Seq<char>,
)
    requires
        entries.len() >= 1,
        unique_keys(acc + entries),
        forall|i: int| 0 <= i < entries.len() ==> 1 <= (#[trigger] entries[i]).1 <= usize::MAX,
    ensures
        sp_tf_entries(
            joined(entries.map_values(|e: (Seq<char>, nat)| tf_item(e))) + seq!['}'] + rest,
            acc,
        ) == Some((acc + entries, rest)),
    decreases entries.len(),
{
    let items = entries.map_values(|e: (Seq<char>, nat)| tf_item(e));
    let e0 = entries[0];
    let s = joined(items) + seq!['}'] + rest;
    assert(items[0] == tf_item(e0));
    assert(!contains_key_seq(acc, e0.0)) by {
        if contains_key_seq(acc, e0.0) {
            let i = choose|i: int| 0 <= i < acc.len() && (#[trigger] acc[i]).0 == e0.0;
            assert((acc + entries)[i] == acc[i]);
            assert((acc + entries)[acc.len() as int] == e0);
        }
    }
    lemma_dec_digits_props(e0.1);
    if entries.len() == 1 {
        assert(joined(items) == items[0]);
        let tail1 = seq![':'] + dec_digits(e0.1) + seq!['}'] + rest;
        assert(s =~= quoted(e0.0) + tail1);
        lemma_string_rt(e0.0, tail1);
        assert(tail1[0] == ':');
        assert(skip_ws(tail1) == tail1);
        assert(tail1.skip(1) =~= dec_digits(e0.1) + (seq!['}'] + rest));
        assert(is_digit(tail1.skip(1)[0]));
        assert(skip_ws(tail1.skip(1)) == tail1.skip(1));
        assert(!is_digit((seq!['}'] + rest)[0]));
        lemma_number_rt(e0.1, seq!['}'] + rest);
        assert((seq!['}'] + rest)[0] == '}');
        assert(skip_ws(seq!['}'] + rest) == seq!['}'] + rest);
        assert((seq!['}'] + rest).skip(1) =~= rest);
        assert(acc.push(e0) =~= acc + entries);
    } else {
        assert(joined(items) == items[0] + seq![','] + joined(items.skip(1)));
        assert(items.skip(1) =~= entries.skip(1).map_values(|e: (Seq<char>, nat)| tf_item(e)));
        let numrest = seq![','] + joined(items.skip(1)) + seq!['}'] + rest;
        let tail1 = seq![':'] + dec_digits(e0.1) + numrest;
        assert(s =~= quoted(e0.0) + tail1);
        lemma_string_rt(e0.0, tail1);
        assert(tail1[0] == ':');
        assert(skip_ws(tail1) == tail1);
        assert(tail1.skip(1) =~= dec_digits(e0.1) + numrest);
        assert(is_digit(tail1.skip(1)[0]));
        assert(skip_ws(tail1.skip(1)) == tail1.skip(1));
        assert(numrest[0] == ',');
        assert(!is_digit(numrest[0]));
        assert(skip_ws(numrest) == numrest);
        lemma_number_rt(e0.1, numrest);
        assert(numrest.skip(1) =~= joined(items.skip(1)) + seq!['}'] + rest);
        assert(items.skip(1)[0] == tf_item(entries[1]));
        assert(tf_item(entries[1])[0] == '"');
        assert(joined(items.skip(1))[0] == items.skip(1)[0][0]) by {
            if items.skip(1).len() > 1 {
                assert(joined(items.skip(1)) == items.skip(1)[0] + seq![','] + joined(
                    items.skip(1).skip(1),
                ));
            }
        }
        assert(numrest.skip(1)[0] == '"');
        assert(skip_ws(numrest.skip(1)) == numrest.skip(1));
        assert(acc.push(e0) + entries.skip(1) =~= acc + entries);
        assert forall|i: int| 0 <= i < entries.skip(1).len() implies 1 <= (#[trigger] entries.skip(
            1,
        )[i]).1 <= usize::MAX by {
            assert(entries.skip(1)[i] == entries[i + 1]);
        }
        lemma_tf_entries_rt(entries.skip(1), acc.push(e0), rest);
    }
}

proof fn lemma_tf_rt(entries: Seq<(Seq<char>, nat)>, rest: Seq<char>)
    requires
        tf_wf(entries),
        forall|i: int| 0 <= i < entries.len() ==> (#[trigger] entries[i]).1 <= usize::MAX,
    ensures
        sp_tf(tf_json(entries) + rest) == Some((entries, rest)),
{
    let items = entries.map_values(|e: (Seq<char>, nat)| tf_item(e));
    let s = tf_json(entries) + rest;
    assert(s[0] == '{');
    if entries.len() == 0 {
        assert(joined(items) =~= Seq::<char>::empty());
        assert(s =~= seq!['{', '}'] + rest);
        assert(s.skip(1) =~= seq!['}'] + rest);
        assert((seq!['}'] + rest)[0] == '}');
        assert(skip_ws(seq!['}'] + rest) == seq!['}'] + rest);
        assert((seq!['}'] + rest).skip(1) =~= rest);
        assert(entries =~= Seq::<(Seq<char>, nat)>::empty());
    } else {
        assert(items[0] == tf_item(entries[0]));
        assert(tf_item(entries[0])[0] == '"');
        assert(joined(items)[0] == items[0][0]) by {
            if items.len() > 1 {
                assert(joined(items) == items[0] + seq![','] + joined(items.skip(1)));
            }
        }
        assert(s.skip(1) =~= joined(items) + seq!['}'] + rest);
        assert((joined(items) + seq!['}'] + rest)[0] == '"');
        assert(skip_ws(joined(items) + seq!['}'] + rest) == joined(items) + seq!['}'] + rest);
        assert(Seq::<(Seq<char>, nat)>::empty() + entries =~= entries);
        lemma_tf_entries_rt(entries, Seq::empty(), rest);
    }
}

#[verifier::rlimit(80)]
proof fn lemma_ci_entries_rt(
    entries: Seq<(Seq<char>, Seq<(Seq<char>, nat)>)>,
    acc: Seq<(Seq<char>, Seq<(Seq<char>, nat)>)>,
    rest: Seq<char>,
)
    requires
        entries.len() >= 1,
        unique_keys(acc + entries),
        forall|i: int| 0 <= i < entries.len() ==> tf_wf((#[trigger] entries[i]).1),
        forall|i: int, j: int|
            0 <= i < entries.len() && 0 <= j < (#[trigger] entries[i]).1.len() ==> (
            #[trigger] entries[i].1[j]).1 <= usize::MAX,
    ensures
        sp_ci_entries(
            joined(
                entries.map_values(|e: (Seq<char>, Seq<(Seq<char>, nat)>)| ci_item(e)),
            ) + seq!['}'] + rest,
            acc,
        ) == Some((acc + entries, rest)),
    decreases entries.len(),
{
    let items = entries.map_values(|e: (Seq<char>, Seq<(Seq<char>, nat)>)| ci_item(e));
    let e0 = entries[0];
    let s = joined(items) + seq!['}'] + rest;
    assert(items[0] == ci_item(e0));
    assert(!contains_key_seq(acc, e0.0)) by {
        if contains_key_seq(acc, e0.0) {
            let i = choose|i: int| 0 <= i < acc.len() && (#[trigger] acc[i]).0 == e0.0;
            assert((acc + entries)[i] == acc[i]);
            assert((acc + entries)[acc.len() as int] == e0);
        }
    }
    if entries.len() == 1 {
        assert(joined(items) == items[0]);
        let tail1 = seq![':'] + tf_json(e0.1) + seq!['}'] + rest;
        assert(s =~= quoted(e0.0) + tail1);
        lemma_string_rt(e0.0, tail1);
        assert(tail1[0] == ':');
        assert(skip_ws(tail1) == tail1);
        assert(tail1.skip(1) =~= tf_json(e0.1) + (seq!['}'] + rest));
        assert(tail1.skip(1)[0] == '{');
        assert(skip_ws(tail1.skip(1)) == tail1.skip(1));
        lemma_tf_rt(e0.1, seq!['}'] + rest);
        assert((seq!['}'] + rest)[0] == '}');
        assert(skip_ws(seq!['}'] + rest) == seq!['}'] + rest);
        assert((seq!['}'] + rest).skip(1) =~= rest);
        assert(acc.push(e0) =~= acc + entries);
    } else {
        assert(joined(items) == items[0] + seq![','] + joined(items.skip(1)));
        assert(items.skip(1) =~= entries.skip(1).map_values(
            |e: (Seq<char>, Seq<(Seq<char>, nat)>)| ci_item(e),
        ));
        let tfrest = seq![','] + joined(items.skip(1)) + seq!['}'] + rest;
        let tail1 = seq![':'] + tf_json(e0.1) + tfrest;
        assert(s =~= quoted(e0.0) + tail1);
        lemma_string_rt(e0.0, tail1);
        assert(tail1[0] == ':');
        assert(skip_ws(tail1) == tail1);
        assert(tail1.skip(1) =~= tf_json(e0.1) + tfrest);
        assert(tail1.skip(1)[0] == '{');
        assert(skip_ws(tail1.skip(1)) == tail1.skip(1));
        lemma_tf_rt(e0.1, tfrest);
        assert(tfrest[0] == ',');
        assert(skip_ws(tfrest) == tfrest);
        assert(tfrest.skip(1) =~= joined(items.skip(1)) + seq!['}'] + rest);
        assert(items.skip(1)[0] == ci_item(entries[1]));
        assert(ci_item(entries[1])[0] == '"');
        assert(joined(items.skip(1))[0] == items.skip(1)[0][0]) by {
            if items.skip(1).len() > 1 {
                assert(joined(items.skip(1)) == items.skip(1)[0] + seq![','] + joined(
                    items.skip(1).skip(1),
                ));
            }
        }
        assert(tfrest.skip(1)[0] == '"');
        assert(skip_ws(tfrest.skip(1)) == tfrest.skip(1));
        assert(acc.push(e0) + entries.skip(1) =~= acc + entries);
        assert forall|i: int| 0 <= i < entries.skip(1).len() implies tf_wf(
            (#[trigger] entries.skip(1)[i]).1,
        ) by {
            assert(entries.skip(1)[i] == entries[i + 1]);
        }
        assert forall|i: int, j: int|
            0 <= i < entries.skip(1).len() && 0 <= j < (#[trigger] entries.skip(1)[i]).1.len()
            implies (#[trigger] entries.skip(1)[i].1[j]).1 <= usize::MAX by {
            assert(entries.skip(1)[i] == entries[i + 1]);
        }
        lemma_ci_entries_rt(entries.skip(1), acc.push(e0), rest);
    }
}

/// Every count of the view fits the machine word the table stores.
pub open spec fn counts_bounded(m: Seq<(Seq<char>, Seq<(Seq<char>, nat)>)>) -> bool {
    forall|i: int, j: int|
        0 <= i < m.len() && 0 <= j < (#[trigger] m[i]).1.len() ==> (#[trigger] m[i].1[j]).1
            <= usize::MAX
}

/// Round trip: reading back the canonical serialization of any well-formed
/// index yields exactly that index, entry for entry.
pub proof fn lemma_save_load_round_trip(m: Seq<(Seq<char>, Seq<(Seq<char>, nat)>)>)
    requires
        index_wf(m),
        counts_bounded(m),
    ensures
        sp_parse_index(index_json(m)) == Some(m),
{
    let items = m.map_values(|e: (Seq<char>, Seq<(Seq<char>, nat)>)| ci_item(e));
    let s = index_json(m);
    assert(s[0] == '{');
    assert(skip_ws(s) == s);
    if m.len() == 0 {
        assert(joined(items) =~= Seq::<char>::empty());
        assert(s =~= seq!['{', '}']);
        assert(s.skip(1) =~= seq!['}']);
        assert(seq!['}'][0] == '}');
        assert(skip_ws(seq!['}']) == seq!['}']);
        assert(seq!['}'].skip(1) =~= Seq::<char>::empty());
        assert(skip_ws(Seq::<char>::empty()).len() == 0);
        assert(m =~= Seq::<(Seq<char>, Seq<(Seq<char>, nat)>)>::empty());
    } else {
        assert(items[0] == ci_item(m[0]));
        assert(ci_item(m[0])[0] == '"');
        assert(joined(items)[0] == items[0][0]) by {
            if items.len() > 1 {
                assert(joined(items) == items[0] + seq![','] + joined(items.skip(1)));
            }
        }
        assert(s.skip(1) =~= joined(items) + seq!['}'] + Seq::<char>::empty());
        assert((joined(items) + seq!['}'] + Seq::<char>::empty())[0] == '"');
        assert(skip_ws(joined(items) + seq!['}'] + Seq::<char>::empty()) == joined(items)
            + seq!['}'] + Seq::<char>::empty());
        assert(Seq::<(Seq<char>, Seq<(Seq<char>, nat)>)>::empty() + m =~= m);
        lemma_ci_entries_rt(m, Seq::empty(), Seq::empty());
        assert(skip_ws(Seq::<char>::empty()).len() == 0);
    }
}

/// Round trip for any well-formed corpus index value: reading back its
/// serialization yields its view exactly, so `json_to_index(index_to_json(ci))`
/// returns `Ok` with an index equal to `ci`, entry for entry.
pub proof fn lemma_index_round_trips(ci: &CorpusIndex)
    requires
        ci.wf(),
    ensures
        sp_parse_index(index_json(ci@)) == Some(ci@),
{
    crate::index::lemma_ci_counts_bounded(ci);
    lemma_save_load_round_trip(ci@);
}

/// Load a persisted index from its textual content.
pub fn load_index_file(text: &[char]) -> (r: Result<CorpusIndex, ErrorKind>)
    ensures
        match r {
            Ok(ci) => ci.wf() && sp_parse_index(text@) == Some(ci@),
            Err(e) => e == ErrorKind::Serialization && sp_parse_index(text@) is None,
        },
{
    json_to_index(text)
}

} // verus!
