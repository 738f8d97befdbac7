//! The snapshot store's text format.
//!
//! A snapshot is persisted as one line per record: the four string fields and
//! the two timestamp numbers, separated by tabs, each line closed by a
//! newline.  Backslash, tab and newline inside a string field are escaped as
//! `\\`, `\t` and `\n`, which keeps the format line-oriented and
//! human-diffable for arbitrary field contents.  The timestamp is stored as
//! its epoch seconds and its offset seconds, so the original timezone offset
//! survives a save/load round trip exactly.
//!
//! [`encoded_snapshot`] is the authoritative writer's shape and
//! [`parse_snapshot`] the authoritative grammar; [`lemma_snapshot_round_trip`]
//! proves that parsing an encoded snapshot gives back exactly the records
//! that were written.

use vstd::prelude::*;

use crate::record::Entry;
use crate::record::EntryModel;
use crate::record::Timestamp;
use crate::record::models;

verus! {

/// The failure of reading a snapshot back: the text is not a well-formed
/// snapshot file.
#[derive(Clone, Copy, Debug)]
pub struct ParseError;

// ---------------------------------------------------------------------------
// Writing
// ---------------------------------------------------------------------------
/// How one character of a string field is written: backslash, tab and
/// newline are escaped, every other character stands for itself.
pub open spec fn esc_char(c: char) -> Seq<char> {
    if c == '\\' {
        seq!['\\', '\\']
    } else if c == '\t' {
        seq!['\\', 't']
    } else if c == '\n' {
        seq!['\\', 'n']
    } else {
        seq![c]
    }
}

/// How a whole string field is written.
pub open spec fn esc(s: Seq<char>) -> Seq<char>
    decreases s.len(),
{
    if s.len() == 0 {
        Seq::empty()
    } else {
        esc_char(s[0]) + esc(s.drop_first())
    }
}

/// The digit character for a value between 0 and 9; `'0'` otherwise.
pub open spec fn digit_char(d: int) -> char {
    if d == 0 {
        '0'
    } else if d == 1 {
        '1'
    } else if d == 2 {
        '2'
    } else if d == 3 {
        '3'
    } else if d == 4 {
        '4'
    } else if d == 5 {
        '5'
    } else if d == 6 {
        '6'
    } else if d == 7 {
        '7'
    } else if d == 8 {
        '8'
    } else if d == 9 {
        '9'
    } else {
        '0'
    }
}

/// The decimal digits of a nonnegative value, most significant first.
pub open spec fn dec_digits(n: nat) -> Seq<char>
    decreases n,
{
    if n < 10 {
        seq![digit_char(n as int)]
    } else {
        dec_digits(n / 10).push(digit_char((n % 10) as int))
    }
}

/// The decimal form of a value, with a leading minus sign when negative.
pub open spec fn dec_int(v: int) -> Seq<char> {
    if v < 0 {
        seq!['-'] + dec_digits((-v) as nat)
    } else {
        dec_digits(v as nat)
    }
}

/// One record's line: the four escaped string fields and the two timestamp
/// numbers, tab-separated, closed by a newline.
pub open spec fn entry_line(e: EntryModel) -> Seq<char> {
    esc(e.id) + seq!['\t'] + esc(e.message_id) + seq!['\t'] + esc(e.from_addr) + seq!['\t'] + esc(
        e.subject,
    ) + seq!['\t'] + dec_int(e.date.epoch_secs as int) + seq!['\t'] + dec_int(
        e.date.offset_secs as int,
    ) + seq!['\n']
}

/// The whole snapshot file: the records' lines in order.
pub open spec fn encoded_snapshot(s: Seq<EntryModel>) -> Seq<char>
    decreases s.len(),
{
    if s.len() == 0 {
        Seq::empty()
    } else {
        entry_line(s[0]) + encoded_snapshot(s.drop_first())
    }
}

// ---------------------------------------------------------------------------
// Reading
// ---------------------------------------------------------------------------
/// Whether `c` is a decimal digit.
pub open spec fn is_digit(c: char) -> bool {
    48 <= c as u32 <= 57
}

/// The value of a digit character; 0 for any other character.
pub open spec fn digit_val(c: char) -> int {
    if is_digit(c) {
        c as u32 - 48
    } else {
        0
    }
}

/// Reads one escaped string field.  Returns the unescaped content and the
/// remainder, which begins at the terminating tab or newline; fails on a
/// dangling or unknown escape, or when no terminator follows.
pub open spec fn parse_field(s: Seq<char>) -> Option<(Seq<char>, Seq<char>)>
    decreases s.len(),
{
    if s.len() == 0 {
        None
    } else if s[0] == '\t' || s[0] == '\n' {
        Some((Seq::empty(), s))
    } else if s[0] == '\\' {
        if s.len() >= 2 && (s[1] == '\\' || s[1] == 't' || s[1] == 'n') {
            let c = if s[1] == '\\' {
                '\\'
            } else if s[1] == 't' {
                '\t'
            } else {
                '\n'
            };
            match parse_field(s.skip(2)) {
                Some(p) => Some((seq![c] + p.0, p.1)),
                None => None,
            }
        } else {
            None
        }
    } else {
        match parse_field(s.skip(1)) {
            Some(p) => Some((seq![s[0]] + p.0, p.1)),
            None => None,
        }
    }
}

/// The value of a run of digit characters, most significant first.
pub open spec fn digits_val(ds: Seq<char>) -> int
    decreases ds.len(),
{
    if ds.len() == 0 {
        0
    } else {
        digits_val(ds.drop_last()) * 10 + digit_val(ds.last())
    }
}

/// The length of the leading run of digit characters.
pub open spec fn digit_run_len(s: Seq<char>) -> int
    decreases s.len(),
{
    if s.len() == 0 || !is_digit(s[0]) {
        0
    } else {
        1 + digit_run_len(s.skip(1))
    }
}

/// Reads a decimal number: an optional minus sign and at least one digit.
/// Returns the value and the remainder after the digits.
pub open spec fn parse_number(s: Seq<char>) -> Option<(int, Seq<char>)> {
    if s.len() > 0 && s[0] == '-' {
        let k = digit_run_len(s.skip(1));
        if k > 0 {
            Some((-digits_val(s.skip(1).take(k)), s.skip(1).skip(k)))
        } else {
            None
        }
    } else {
        let k = digit_run_len(s);
        if k > 0 {
            Some((digits_val(s.take(k)), s.skip(k)))
        } else {
            None
        }
    }
}

/// Reads one record's line: four tab-terminated string fields, the epoch
/// seconds (within `i64`), a tab, the offset seconds (within `i32`), and the
/// closing newline.  Returns the record and the remainder after the newline.
pub open spec fn parse_entry(s: Seq<char>) -> Option<(EntryModel, Seq<char>)> {
    match parse_field(s) {
        None => None,
        Some(f1) => if f1.1.len() > 0 && f1.1[0] == '\t' {
            match parse_field(f1.1.skip(1)) {
                None => None,
                Some(f2) => if f2.1.len() > 0 && f2.1[0] == '\t' {
                    match parse_field(f2.1.skip(1)) {
                        None => None,
                        Some(f3) => if f3.1.len() > 0 && f3.1[0] == '\t' {
                            match parse_field(f3.1.skip(1)) {
                                None => None,
                                Some(f4) => if f4.1.len() > 0 && f4.1[0] == '\t' {
                                    match parse_number(f4.1.skip(1)) {
                                        None => None,
                                        Some(n1) => if i64::MIN <= n1.0 <= i64::MAX && n1.1.len()
                                            > 0 && n1.1[0] == '\t' {
                                            match parse_number(n1.1.skip(1)) {
                                                None => None,
                                                Some(n2) => if i32::MIN <= n2.0 <= i32::MAX
                                                    && n2.1.len() > 0 && n2.1[0] == '\n' {
                                                    Some(
                                                        (
                                                            EntryModel {
                                                                id: f1.0,
                                                                message_id: f2.0,
                                                                from_addr: f3.0,
                                                                subject: f4.0,
                                                                date: Timestamp {
                                                                    epoch_secs: n1.0 as i64,
                                                                    offset_secs: n2.0 as i32,
                                                                },
                                                            },
                                                            n2.1.skip(1),
                                                        ),
                                                    )
                                                } else {
                                                    None
                                                },
                                            }
                                        } else {
                                            None
                                        },
                                    }
                                } else {
                                    None
                                },
                            }
                        } else {
                            None
                        },
                    }
                } else {
                    None
                },
            }
        } else {
            None
        },
    }
}

/// Reads a whole snapshot file: record lines until the text runs out.
pub open spec fn parse_snapshot(s: Seq<char>) -> Option<Seq<EntryModel>>
    decreases s.len(),
    via parse_snapshot_decreases
{
    if s.len() == 0 {
        Some(Seq::empty())
    } else {
        match parse_entry(s) {
            None => None,
            Some(p) => match parse_snapshot(p.1) {
                None => None,
                Some(v) => Some(seq![p.0] + v),
            },
        }
    }
}

#[via_fn]
proof fn parse_snapshot_decreases(s: Seq<char>) {
    if s.len() != 0 {
        lemma_parse_entry_consumes(s);
    }
}

// ---------------------------------------------------------------------------
// Progress: a parsed record consumes at least one character
// ---------------------------------------------------------------------------
/// A parsed field's remainder is no longer than the input.
proof fn lemma_parse_field_consumes(s: Seq<char>)
    ensures
        parse_field(s) matches Some(p) ==> p.1.len() <= s.len(),
    decreases s.len(),
{
    if s.len() == 0 {
    } else if s[0] == '\t' || s[0] == '\n' {
    } else if s[0] == '\\' {
        if s.len() >= 2 {
            lemma_parse_field_consumes(s.skip(2));
        }
    } else {
        lemma_parse_field_consumes(s.skip(1));
    }
}

/// The leading digit run is never longer than the input.
proof fn lemma_digit_run_len_bounds(s: Seq<char>)
    ensures
        0 <= digit_run_len(s) <= s.len(),
    decreases s.len(),
{
    if s.len() == 0 || !is_digit(s[0]) {
    } else {
        lemma_digit_run_len_bounds(s.skip(1));
    }
}

/// A parsed number's remainder is strictly shorter than the input.
proof fn lemma_parse_number_consumes(s: Seq<char>)
    ensures
        parse_number(s) matches Some(p) ==> p.1.len() < s.len(),
{
    if s.len() > 0 && s[0] == '-' {
        lemma_digit_run_len_bounds(s.skip(1));
    } else {
        lemma_digit_run_len_bounds(s);
    }
}

/// A parsed record's remainder is strictly shorter than the input.
proof fn lemma_parse_entry_consumes(s: Seq<char>)
    ensures
        parse_entry(s) matches Some(p) ==> p.1.len() < s.len(),
{
    lemma_parse_field_consumes(s);
    if let Some(f1) = parse_field(s) {
        if f1.1.len() > 0 && f1.1[0] == '\t' {
            lemma_parse_field_consumes(f1.1.skip(1));
            if let Some(f2) = parse_field(f1.1.skip(1)) {
                assert(f2.1.len() < s.len());
                if f2.1.len() > 0 && f2.1[0] == '\t' {
                    lemma_parse_field_consumes(f2.1.skip(1));
                    if let Some(f3) = parse_field(f2.1.skip(1)) {
                        assert(f3.1.len() < s.len());
                        if f3.1.len() > 0 && f3.1[0] == '\t' {
                            lemma_parse_field_consumes(f3.1.skip(1));
                            if let Some(f4) = parse_field(f3.1.skip(1)) {
                                assert(f4.1.len() < s.len());
                                if f4.1.len() > 0 && f4.1[0] == '\t' {
                                    lemma_parse_number_consumes(f4.1.skip(1));
                                    if let Some(n1) = parse_number(f4.1.skip(1)) {
                                        assert(n1.1.len() < s.len());
                                        if n1.1.len() > 0 && n1.1[0] == '\t' {
                                            lemma_parse_number_consumes(n1.1.skip(1));
                                            if let Some(n2) = parse_number(n1.1.skip(1)) {
                                                assert(n2.1.len() < s.len());
                                            }
                                        }
                                    }
                                }
                            }
                        }
                    }
                }
            }
        }
    }
}

// ---------------------------------------------------------------------------
// Round trip: parsing what was written gives back what was written
// ---------------------------------------------------------------------------
/// Writing one more character extends the escaped field at its end.
proof fn lemma_esc_push(s: Seq<char>, c: char)
    ensures
        esc(s.push(c)) == esc(s) + esc_char(c),
    decreases s.len(),
{
    if s.len() == 0 {
        assert((s.push(c)).drop_first() =~= Seq::<char>::empty());
        assert(esc(Seq::<char>::empty()) == Seq::<char>::empty());
        assert(esc(s.push(c)) =~= esc(s) + esc_char(c));
    } else {
        assert(s.push(c).drop_first() =~= s.drop_first().push(c));
        lemma_esc_push(s.drop_first(), c);
        assert(esc(s.push(c)) =~= esc(s) + esc_char(c));
    }
}

/// Reading an escaped field from in front of a terminator gives back the
/// field.
proof fn lemma_parse_field_round_trip(x: Seq<char>, rest: Seq<char>)
    requires
        rest.len() > 0,
        rest[0] == '\t' || rest[0] == '\n',
    ensures
        parse_field(esc(x) + rest) == Some((x, rest)),
    decreases x.len(),
{
    let s = esc(x) + rest;
    if x.len() == 0 {
        assert(s =~= rest);
    } else {
        let c = x[0];
        lemma_parse_field_round_trip(x.drop_first(), rest);
        if c == '\\' || c == '\t' || c == '\n' {
            assert(s[0] == '\\');
            assert(s[1] == esc_char(c)[1]);
            assert(s.skip(2) =~= esc(x.drop_first()) + rest);
            assert(seq![c] + x.drop_first() =~= x);
        } else {
            assert(s[0] == c);
            assert(s.skip(1) =~= esc(x.drop_first()) + rest);
            assert(seq![c] + x.drop_first() =~= x);
        }
    }
}

/// Every character the writer uses for a nonnegative number is a digit.
proof fn lemma_dec_digits_are_digits(n: nat)
    ensures
        dec_digits(n).len() >= 1,
        forall|i: int| 0 <= i < dec_digits(n).len() ==> is_digit(#[trigger] dec_digits(n)[i]),
    decreases n,
{
    if n < 10 {
    } else {
        lemma_dec_digits_are_digits(n / 10);
    }
}

/// The digit run at the head of digits followed by a non-digit is exactly
/// those digits.
proof fn lemma_digit_run_of_digits(ds: Seq<char>, rest: Seq<char>)
    requires
        forall|i: int| 0 <= i < ds.len() ==> is_digit(#[trigger] ds[i]),
        rest.len() == 0 || !is_digit(rest[0]),
    ensures
        digit_run_len(ds + rest) == ds.len(),
    decreases ds.len(),
{
    let s = ds + rest;
    if ds.len() == 0 {
        assert(s =~= rest);
    } else {
        assert(s[0] == ds[0]);
        assert(s.skip(1) =~= ds.drop_first() + rest);
        lemma_digit_run_of_digits(ds.drop_first(), rest);
    }
}

/// Reading back the digits of a nonnegative value gives the value.
proof fn lemma_digits_val_round_trip(n: nat)
    ensures
        digits_val(dec_digits(n)) == n,
    decreases n,
{
    if n < 10 {
        assert(seq![digit_char(n as int)].drop_last() =~= Seq::<char>::empty());
        assert(digits_val(Seq::<char>::empty()) == 0);
        assert(digit_val(digit_char(n as int)) == n);
    } else {
        lemma_digits_val_round_trip(n / 10);
        assert(dec_digits(n / 10).push(digit_char((n % 10) as int)).drop_last() =~= dec_digits(
            n / 10,
        ));
        assert(digit_val(digit_char((n % 10) as int)) == n % 10);
        assert(n / 10 * 10 + n % 10 == n) by {
            vstd::arithmetic::div_mod::lemma_fundamental_div_mod(n as int, 10);
        }
    }
}

/// Reading a written number from in front of a non-digit gives back the
/// value.
proof fn lemma_parse_number_round_trip(v: int, rest: Seq<char>)
    requires
        rest.len() > 0,
        !is_digit(rest[0]),
        rest[0] != '-',
    ensures
        parse_number(dec_int(v) + rest) == Some((v, rest)),
{
    let s = dec_int(v) + rest;
    if v < 0 {
        let m = (-v) as nat;
        lemma_dec_digits_are_digits(m);
        lemma_digits_val_round_trip(m);
        assert(s[0] == '-');
        assert(s.skip(1) =~= dec_digits(m) + rest);
        lemma_digit_run_of_digits(dec_digits(m), rest);
        let k = digit_run_len(s.skip(1));
        assert(k == dec_digits(m).len());
        assert(s.skip(1).take(k) =~= dec_digits(m));
        assert(s.skip(1).skip(k) =~= rest);
    } else {
        let m = v as nat;
        lemma_dec_digits_are_digits(m);
        lemma_digits_val_round_trip(m);
        assert(s =~= dec_digits(m) + rest);
        assert(s[0] == dec_digits(m)[0]);
        lemma_digit_run_of_digits(dec_digits(m), rest);
        let k = digit_run_len(s);
        assert(k == dec_digits(m).len());
        assert(s.take(k) =~= dec_digits(m));
        assert(s.skip(k) =~= rest);
    }
}

/// Reading a written record line gives back the record, whatever follows the
/// line.
#[verifier::rlimit(100)]
proof fn lemma_parse_entry_round_trip(e: EntryModel, rest: Seq<char>)
    ensures
        parse_entry(entry_line(e) + rest) == Some((e, rest)),
{
    let s = entry_line(e) + rest;
    let r1 = seq!['\t'] + esc(e.message_id) + seq!['\t'] + esc(e.from_addr) + seq!['\t'] + esc(
        e.subject,
    ) + seq!['\t'] + dec_int(e.date.epoch_secs as int) + seq!['\t'] + dec_int(
        e.date.offset_secs as int,
    ) + seq!['\n'] + rest;
    let r2 = r1.skip(1).skip(esc(e.message_id).len() as int);
    let r3 = r2.skip(1).skip(esc(e.from_addr).len() as int);
    let r4 = r3.skip(1).skip(esc(e.subject).len() as int);
    assert(s =~= esc(e.id) + r1);
    lemma_parse_field_round_trip(e.id, r1);
    assert(parse_field(s) == Some((e.id, r1)));

    assert(r1.skip(1) =~= esc(e.message_id) + r2);
    assert(r2.len() > 0 && r2[0] == '\t');
    lemma_parse_field_round_trip(e.message_id, r2);

    assert(r2.skip(1) =~= esc(e.from_addr) + r3);
    assert(r3.len() > 0 && r3[0] == '\t');
    lemma_parse_field_round_trip(e.from_addr, r3);

    assert(r3.skip(1) =~= esc(e.subject) + r4);
    assert(r4.len() > 0 && r4[0] == '\t');
    lemma_parse_field_round_trip(e.subject, r4);

    let n1rest = seq!['\t'] + dec_int(e.date.offset_secs as int) + seq!['\n'] + rest;
    assert(r4.skip(1) =~= dec_int(e.date.epoch_secs as int) + n1rest);
    lemma_parse_number_round_trip(e.date.epoch_secs as int, n1rest);

    let n2rest = seq!['\n'] + rest;
    assert(n1rest.skip(1) =~= dec_int(e.date.offset_secs as int) + n2rest);
    lemma_parse_number_round_trip(e.date.offset_secs as int, n2rest);

    assert(n2rest.skip(1) =~= rest);
    assert(parse_entry(s) == Some((e, rest)));
}

/// The round trip of the snapshot store: reading back a written snapshot
/// gives exactly the records that were written, each with its timestamp
/// offset preserved.
pub proof fn lemma_snapshot_round_trip(s: Seq<EntryModel>)
    ensures
        parse_snapshot(encoded_snapshot(s)) == Some(s),
    decreases s.len(),
{
    if s.len() == 0 {
        assert(encoded_snapshot(s).len() == 0);
    } else {
        let text = encoded_snapshot(s);
        lemma_parse_entry_round_trip(s[0], encoded_snapshot(s.drop_first()));
        lemma_snapshot_round_trip(s.drop_first());
        assert(text.len() > 0);
        assert(seq![s[0]] + s.drop_first() =~= s);
    }
}

/// Writing one more record extends the encoded snapshot at its end.
proof fn lemma_encoded_snapshot_push(s: Seq<EntryModel>, e: EntryModel)
    ensures
        encoded_snapshot(s.push(e)) == encoded_snapshot(s) + entry_line(e),
    decreases s.len(),
{
    if s.len() == 0 {
        assert((s.push(e)).drop_first() =~= Seq::<EntryModel>::empty());
        assert(encoded_snapshot(Seq::<EntryModel>::empty()) == Seq::<char>::empty());
        assert(encoded_snapshot(s.push(e)) =~= encoded_snapshot(s) + entry_line(e));
    } else {
        assert(s.push(e).drop_first() =~= s.drop_first().push(e));
        lemma_encoded_snapshot_push(s.drop_first(), e);
        assert(encoded_snapshot(s.push(e)) =~= encoded_snapshot(s) + entry_line(e));
    }
}

// ---------------------------------------------------------------------------
// The executable writer
// ---------------------------------------------------------------------------
/// Relies on `String: FromIterator<char>`: collecting an iterator of chars
/// yields the string of exactly those chars, in order.
#[verifier::external_body]
fn chars_to_string(cs: &Vec<char>) -> (r: String)
    ensures
        r@ == cs@,
{
    cs.iter().collect()
}

/// The chars of `s`, in order, as a vector.
fn str_chars(s: &str) -> (r: Vec<char>)
    ensures
        r@ == s@,
{
    let n = s.unicode_len();
    let mut r: Vec<char> = Vec::new();
    let mut i: usize = 0;
    #[verifier::loop_isolation(false)]
    while i < n
        invariant
            i <= n == s@.len(),
            r@ == s@.take(i as int),
        decreases n - i,
    {
        let c = s.get_char(i);
        r.push(c);
        proof {
            assert(s@.take(i as int).push(s@[i as int]) =~= s@.take(i as int + 1));
        }
        i += 1;
    }
    proof {
        assert(s@.take(n as int) =~= s@);
    }
    r
}

/// The digit character of a value below ten.
fn digit_char_x(d: u8) -> (c: char)
    requires
        d < 10,
    ensures
        c == digit_char(d as int),
{
    if d == 0 {
        '0'
    } else if d == 1 {
        '1'
    } else if d == 2 {
        '2'
    } else if d == 3 {
        '3'
    } else if d == 4 {
        '4'
    } else if d == 5 {
        '5'
    } else if d == 6 {
        '6'
    } else if d == 7 {
        '7'
    } else if d == 8 {
        '8'
    } else {
        '9'
    }
}

/// Appends the decimal digits of `n`.
fn push_dec_u64(out: &mut Vec<char>, n: u64)
    ensures
        final(out)@ == old(out)@ + dec_digits(n as nat),
    decreases n,
{
    if n < 10 {
        out.push(digit_char_x(n as u8));
        proof {
            assert(final(out)@ =~= old(out)@ + dec_digits(n as nat));
        }
    } else {
        push_dec_u64(out, n / 10);
        out.push(digit_char_x((n % 10) as u8));
        proof {
            assert(final(out)@ =~= old(out)@ + dec_digits(n as nat));
        }
    }
}

/// Appends the decimal form of `v`, with a minus sign when negative.
fn push_dec_i64(out: &mut Vec<char>, v: i64)
    ensures
        final(out)@ == old(out)@ + dec_int(v as int),
{
    if v >= 0 {
        push_dec_u64(out, v as u64);
    } else {
        out.push('-');
        let m128: i128 = -(v as i128);
        let m: u64 = m128 as u64;
        proof {
            assert(m as int == -(v as int));
        }
        push_dec_u64(out, m);
        proof {
            assert(final(out)@ =~= old(out)@ + dec_int(v as int));
        }
    }
}

/// Appends the escaped form of `s`.
fn push_escaped(out: &mut Vec<char>, s: &str)
    ensures
        final(out)@ == old(out)@ + esc(s@),
{
    let n = s.unicode_len();
    let mut i: usize = 0;
    #[verifier::loop_isolation(false)]
    while i < n
        invariant
            i <= n == s@.len(),
            out@ == old(out)@ + esc(s@.take(i as int)),
        decreases n - i,
    {
        let c = s.get_char(i);
        let ghost base = out@;
        if c == '\\' {
            out.push('\\');
            out.push('\\');
        } else if c == '\t' {
            out.push('\\');
            out.push('t');
        } else if c == '\n' {
            out.push('\\');
            out.push('n');
        } else {
            out.push(c);
        }
        proof {
            assert(out@ =~= base + esc_char(s@[i as int]));
            lemma_esc_push(s@.take(i as int), s@[i as int]);
            assert(s@.take(i as int).push(s@[i as int]) =~= s@.take(i as int + 1));
        }
        i += 1;
    }
    proof {
        assert(s@.take(n as int) =~= s@);
    }
}

/// Serializes the snapshot in its on-disk text form, one record per line.
pub fn encode_snapshot(snap: &Vec<Entry>) -> (r: String)
    ensures
        r@ == encoded_snapshot(models(snap@)),
{
    let mut out: Vec<char> = Vec::new();
    let mut i: usize = 0;
    #[verifier::loop_isolation(false)]
    while i < snap.len()
        invariant
            i <= snap@.len(),
            out@ == encoded_snapshot(models(snap@).take(i as int)),
        decreases snap@.len() - i,
    {
        let e = &snap[i];
        let ghost base = out@;
        push_escaped(&mut out, e.id.as_str());
        out.push('\t');
        push_escaped(&mut out, e.message_id.as_str());
        out.push('\t');
        push_escaped(&mut out, e.from_addr.as_str());
        out.push('\t');
        push_escaped(&mut out, e.subject.as_str());
        out.push('\t');
        push_dec_i64(&mut out, e.date.epoch_secs);
        out.push('\t');
        push_dec_i64(&mut out, e.date.offset_secs as i64);
        out.push('\n');
        proof {
            assert(out@ =~= base + entry_line(models(snap@)[i as int]));
            lemma_encoded_snapshot_push(models(snap@).take(i as int), models(snap@)[i as int]);
            assert(models(snap@).take(i as int).push(models(snap@)[i as int]) =~= models(
                snap@,
            ).take(i as int + 1));
        }
        i += 1;
    }
    proof {
        assert(models(snap@).take(snap@.len() as int) =~= models(snap@));
    }
    chars_to_string(&out)
}

// ---------------------------------------------------------------------------
// The executable reader
// ---------------------------------------------------------------------------
/// Whether `c` is a decimal digit.
fn is_digit_x(c: char) -> (r: bool)
    ensures
        r == is_digit(c),
{
    let u = c as u32;
    48 <= u && u <= 57
}

/// The value of a digit character.
fn digit_val_x(c: char) -> (r: u64)
    requires
        is_digit(c),
    ensures
        r as int == digit_val(c),
{
    ((c as u32) - 48) as u64
}

/// Reads one escaped string field starting at `pos`: its unescaped content
/// and the position of the terminating tab or newline.
fn parse_field_x(cs: &Vec<char>, pos: usize) -> (r: Option<(Vec<char>, usize)>)
    requires
        pos <= cs@.len(),
    ensures
        ({
            let sp = parse_field(cs@.skip(pos as int));
            match r {
                Some(p) => sp matches Some(q) && p.0@ == q.0 && pos <= p.1 <= cs@.len()
                    && cs@.skip(p.1 as int) == q.1,
                None => sp is None,
            }
        }),
{
    let ghost sp = parse_field(cs@.skip(pos as int));
    let mut content: Vec<char> = Vec::new();
    let mut cur: usize = pos;
    #[verifier::loop_isolation(false)]
    while cur < cs.len()
        invariant
            pos <= cur <= cs@.len(),
            sp == (match parse_field(cs@.skip(cur as int)) {
                Some(q) => Some((content@ + q.0, q.1)),
                None => None::<(Seq<char>, Seq<char>)>,
            }),
        decreases cs@.len() - cur,
    {
        let c = cs[cur];
        proof {
            assert(cs@.skip(cur as int)[0] == cs@[cur as int]);
        }
        if c == '\t' || c == '\n' {
            proof {
                assert(parse_field(cs@.skip(cur as int)) == Some(
                    (Seq::<char>::empty(), cs@.skip(cur as int)),
                ));
                assert(content@ + Seq::<char>::empty() =~= content@);
            }
            return Some((content, cur));
        } else if c == '\\' {
            if cur + 1 < cs.len() {
                let c2 = cs[cur + 1];
                proof {
                    assert(cs@.skip(cur as int)[1] == cs@[cur as int + 1]);
                    assert(cs@.skip(cur as int).skip(2) =~= cs@.skip(cur as int + 2));
                }
                if c2 == '\\' || c2 == 't' || c2 == 'n' {
                    let u = if c2 == '\\' {
                        '\\'
                    } else if c2 == 't' {
                        '\t'
                    } else {
                        '\n'
                    };
                    let ghost before = content@;
                    content.push(u);
                    proof {
                        if let Some(q) = parse_field(cs@.skip(cur as int + 2)) {
                            assert((before + seq![u]) + q.0 =~= before + (seq![u] + q.0));
                            assert(content@ =~= before + seq![u]);
                        }
                    }
                    cur = cur + 2;
                } else {
                    return None;
                }
            } else {
                proof {
                    assert(cs@.skip(cur as int).len() < 2);
                }
                return None;
            }
        } else {
            let ghost before = content@;
            content.push(c);
            proof {
                assert(cs@.skip(cur as int).skip(1) =~= cs@.skip(cur as int + 1));
                if let Some(q) = parse_field(cs@.skip(cur as int + 1)) {
                    assert((before + seq![c]) + q.0 =~= before + (seq![c] + q.0));
                    assert(content@ =~= before + seq![c]);
                }
            }
            cur = cur + 1;
        }
    }
    proof {
        assert(cs@.skip(cur as int).len() == 0);
    }
    None
}

/// Reads a decimal number starting at `pos`: its value and the position
/// after its digits.  Fails when no number starts there, or when the value
/// does not fit an `i64`.
fn parse_number_x(cs: &Vec<char>, pos: usize) -> (r: Option<(i64, usize)>)
    requires
        pos <= cs@.len(),
    ensures
        ({
            let sp = parse_number(cs@.skip(pos as int));
            match r {
                Some(p) => sp matches Some(q) && p.0 as int == q.0 && pos <= p.1 <= cs@.len()
                    && cs@.skip(p.1 as int) == q.1,
                None => sp is None || (sp matches Some(q) && !(i64::MIN <= q.0 <= i64::MAX)),
            }
        }),
{
    let mut neg = false;
    let mut dstart = pos;
    if pos < cs.len() {
        if cs[pos] == '-' {
            neg = true;
            dstart = pos + 1;
            proof {
                assert(cs@.skip(pos as int)[0] == '-');
                assert(cs@.skip(pos as int).skip(1) =~= cs@.skip(pos as int + 1));
                assert(!is_digit('-'));
            }
        } else {
            proof {
                assert(cs@.skip(pos as int)[0] == cs@[pos as int]);
            }
        }
    }
    let mut cur = dstart;
    let mut acc: u64 = 0;
    let mut overflow = false;
    #[verifier::loop_isolation(false)]
    loop
        invariant
            pos <= dstart <= cur <= cs@.len(),
            forall|j: int| dstart <= j < cur ==> is_digit(#[trigger] cs@[j]),
            !overflow ==> acc as int == digits_val(cs@.subrange(dstart as int, cur as int)),
            overflow ==> digits_val(cs@.subrange(dstart as int, cur as int)) > u64::MAX,
        decreases cs@.len() - cur,
    {
        if cur >= cs.len() {
            break;
        }
        let c = cs[cur];
        if !is_digit_x(c) {
            break;
        }
        let d = digit_val_x(c);
        let ghost run = cs@.subrange(dstart as int, cur as int);
        proof {
            lemma_digits_val_nonneg(run);
            assert(cs@.subrange(dstart as int, cur as int + 1) =~= run.push(c));
            assert((run.push(c)).drop_last() =~= run);
            assert(digits_val(run.push(c)) == digits_val(run) * 10 + digit_val(c));
        }
        if !overflow {
            let m = acc.checked_mul(10);
            match m {
                Some(a) => {
                    let s = a.checked_add(d);
                    match s {
                        Some(b) => {
                            acc = b;
                        },
                        None => {
                            overflow = true;
                        },
                    }
                },
                None => {
                    overflow = true;
                },
            }
        } else {
            proof {
                assert(digits_val(run) * 10 >= digits_val(run));
            }
        }
        cur = cur + 1;
    }
    let ghost s = cs@.skip(pos as int);
    let ghost ds = cs@.subrange(dstart as int, cur as int);
    let ghost tail = cs@.skip(cur as int);
    proof {
        assert(cs@.skip(dstart as int) =~= ds + tail);
        assert(tail.len() == 0 || !is_digit(tail[0]));
        lemma_digit_run_of_digits(ds, tail);
        if neg {
            assert(s.skip(1) =~= cs@.skip(dstart as int));
        } else {
            assert(s =~= cs@.skip(dstart as int));
        }
    }
    if cur == dstart {
        // no digits at all
        return None;
    }
    proof {
        assert(digit_run_len(cs@.skip(dstart as int)) == ds.len());
        assert(cs@.skip(dstart as int).take(ds.len() as int) =~= ds);
        assert(cs@.skip(dstart as int).skip(ds.len() as int) =~= tail);
        lemma_digits_val_nonneg(ds);
    }
    if overflow {
        return None;
    }
    if neg {
        if acc <= 9223372036854775807u64 {
            Some((-(acc as i64), cur))
        } else if acc == 9223372036854775808u64 {
            Some((i64::MIN, cur))
        } else {
            None
        }
    } else {
        if acc <= 9223372036854775807u64 {
            Some((acc as i64, cur))
        } else {
            None
        }
    }
}

/// Reads one record line starting at `pos`: the record and the position
/// after the closing newline.
fn parse_entry_x(cs: &Vec<char>, pos: usize) -> (r: Option<(Entry, usize)>)
    requires
        pos <= cs@.len(),
    ensures
        ({
            let sp = parse_entry(cs@.skip(pos as int));
            match r {
                Some(p) => sp matches Some(q) && p.0@ == q.0 && pos < p.1 <= cs@.len()
                    && cs@.skip(p.1 as int) == q.1,
                None => sp is None,
            }
        }),
{
    let f1 = match parse_field_x(cs, pos) {
        None => {
            return None;
        },
        Some(f) => f,
    };
    let t1 = f1.1;
    if !(t1 < cs.len() && cs[t1] == '\t') {
        proof {
            assert(cs@.skip(t1 as int).len() > 0 ==> cs@.skip(t1 as int)[0] == cs@[t1 as int]);
        }
        return None;
    }
    proof {
        assert(cs@.skip(t1 as int)[0] == '\t');
        assert(cs@.skip(t1 as int).skip(1) =~= cs@.skip(t1 as int + 1));
    }
    let f2 = match parse_field_x(cs, t1 + 1) {
        None => {
            return None;
        },
        Some(f) => f,
    };
    let t2 = f2.1;
    if !(t2 < cs.len() && cs[t2] == '\t') {
        proof {
            assert(cs@.skip(t2 as int).len() > 0 ==> cs@.skip(t2 as int)[0] == cs@[t2 as int]);
        }
        return None;
    }
    proof {
        assert(cs@.skip(t2 as int)[0] == '\t');
        assert(cs@.skip(t2 as int).skip(1) =~= cs@.skip(t2 as int + 1));
    }
    let f3 = match parse_field_x(cs, t2 + 1) {
        None => {
            return None;
        },
        Some(f) => f,
    };
    let t3 = f3.1;
    if !(t3 < cs.len() && cs[t3] == '\t') {
        proof {
            assert(cs@.skip(t3 as int).len() > 0 ==> cs@.skip(t3 as int)[0] == cs@[t3 as int]);
        }
        return None;
    }
    proof {
        assert(cs@.skip(t3 as int)[0] == '\t');
        assert(cs@.skip(t3 as int).skip(1) =~= cs@.skip(t3 as int + 1));
    }
    let f4 = match parse_field_x(cs, t3 + 1) {
        None => {
            return None;
        },
        Some(f) => f,
    };
    let t4 = f4.1;
    if !(t4 < cs.len() && cs[t4] == '\t') {
        proof {
            assert(cs@.skip(t4 as int).len() > 0 ==> cs@.skip(t4 as int)[0] == cs@[t4 as int]);
        }
        return None;
    }
    proof {
        assert(cs@.skip(t4 as int)[0] == '\t');
        assert(cs@.skip(t4 as int).skip(1) =~= cs@.skip(t4 as int + 1));
    }
    let n1 = match parse_number_x(cs, t4 + 1) {
        None => {
            return None;
        },
        Some(n) => n,
    };
    let t5 = n1.1;
    if !(t5 < cs.len() && cs[t5] == '\t') {
        proof {
            assert(cs@.skip(t5 as int).len() > 0 ==> cs@.skip(t5 as int)[0] == cs@[t5 as int]);
        }
        return None;
    }
    proof {
        assert(cs@.skip(t5 as int)[0] == '\t');
        assert(cs@.skip(t5 as int).skip(1) =~= cs@.skip(t5 as int + 1));
    }
    let n2 = match parse_number_x(cs, t5 + 1) {
        None => {
            return None;
        },
        Some(n) => n,
    };
    let t6 = n2.1;
    if !(-2147483648i64 <= n2.0 && n2.0 <= 2147483647i64) {
        return None;
    }
    if !(t6 < cs.len() && cs[t6] == '\n') {
        proof {
            assert(cs@.skip(t6 as int).len() > 0 ==> cs@.skip(t6 as int)[0] == cs@[t6 as int]);
        }
        return None;
    }
    proof {
        assert(cs@.skip(t6 as int)[0] == '\n');
        assert(cs@.skip(t6 as int).skip(1) =~= cs@.skip(t6 as int + 1));
    }
    let e = Entry::new(
        chars_to_string(&f1.0),
        chars_to_string(&f2.0),
        chars_to_string(&f3.0),
        chars_to_string(&f4.0),
        Timestamp { epoch_secs: n1.0, offset_secs: n2.0 as i32 },
    );
    Some((e, t6 + 1))
}

/// Deserializes a snapshot from its on-disk text form.  Fails on any
/// malformed text, in which case the caller should start from an empty
/// snapshot.
pub fn decode_snapshot(text: &str) -> (r: Result<Vec<Entry>, ParseError>)
    ensures
        match r {
            Ok(v) => parse_snapshot(text@) == Some(models(v@)),
            Err(_) => parse_snapshot(text@) is None,
        },
{
    let cs = str_chars(text);
    let mut out: Vec<Entry> = Vec::new();
    let mut pos: usize = 0;
    proof {
        assert(cs@.skip(0) =~= text@);
        assert(models(out@) =~= Seq::<EntryModel>::empty());
        if let Some(v) = parse_snapshot(text@) {
            assert(models(out@) + v =~= v);
        }
    }
    #[verifier::loop_isolation(false)]
    while pos < cs.len()
        invariant
            pos <= cs@.len(),
            cs@ == text@,
            parse_snapshot(text@) == (match parse_snapshot(cs@.skip(pos as int)) {
                Some(v) => Some(models(out@) + v),
                None => None::<Seq<EntryModel>>,
            }),
        decreases cs@.len() - pos,
    {
        match parse_entry_x(&cs, pos) {
            None => {
                proof {
                    assert(cs@.skip(pos as int).len() > 0);
                    assert(parse_snapshot(cs@.skip(pos as int)) is None);
                }
                return Err(ParseError);
            },
            Some(p) => {
                let ghost before = models(out@);
                proof {
                    let sp = parse_entry(cs@.skip(pos as int));
                    assert(sp matches Some(q) && q.1 == cs@.skip(p.1 as int));
                    if let Some(v) = parse_snapshot(cs@.skip(p.1 as int)) {
                        assert(before + (seq![p.0@] + v) =~= (before.push(p.0@)) + v);
                    }
                }
                let (e, end) = p;
                out.push(e);
                proof {
                    assert(models(out@) =~= before.push(out@[out@.len() - 1]@));
                }
                pos = end;
            },
        }
    }
    proof {
        assert(cs@.skip(pos as int) =~= Seq::<char>::empty());
        assert(parse_snapshot(Seq::<char>::empty()) == Some(Seq::<EntryModel>::empty()));
        assert(models(out@) + Seq::<EntryModel>::empty() =~= models(out@));
    }
    Ok(out)
}

/// Digit values never make a run's value negative.
proof fn lemma_digits_val_nonneg(ds: Seq<char>)
    ensures
        digits_val(ds) >= 0,
    decreases ds.len(),
{
    if ds.len() == 0 {
    } else {
        lemma_digits_val_nonneg(ds.drop_last());
    }
}

} // verus!
