//! The persisted byte form of a store: a little-endian, length-prefixed
//! binary layout of the id counter and the entries, with a decoder that
//! accepts exactly the well-formed encodings and reports everything else
//! as corrupt. Encoding then decoding provably reproduces the state.

use vstd::prelude::*;
use vstd::arithmetic::div_mod::{
    lemma_basic_div, lemma_div_denominator, lemma_fundamental_div_mod, lemma_mod_bound,
};

use crate::entry::{DiaryEntry, EntryModel};
use crate::state::{entries_view, st_wf, DiaryState, StateModel};
use crate::text::tags_view;

verus! {

/// Relies on `char::from_u32` of std: it returns the character with the
/// given scalar value, and `None` exactly for surrogates and values past
/// the largest scalar.
pub assume_specification[ char::from_u32 ](v: u32) -> (r: Option<char>)
    ensures
        r is Some <==> char_valid(v as int),
        r matches Some(c) ==> c as u32 == v,
;

/// The eight little-endian base-256 digits of `x`.
pub open spec fn u64_le(x: int) -> Seq<u8>
    recommends
        0 <= x < 0x10000000000000000,
{
    seq![
        (x % 0x100) as u8,
        ((x / 0x100) % 0x100) as u8,
        ((x / 0x10000) % 0x100) as u8,
        ((x / 0x1000000) % 0x100) as u8,
        ((x / 0x100000000) % 0x100) as u8,
        ((x / 0x10000000000) % 0x100) as u8,
        ((x / 0x1000000000000) % 0x100) as u8,
        ((x / 0x100000000000000) % 0x100) as u8,
    ]
}

/// The four little-endian base-256 digits of `x`.
pub open spec fn u32_le(x: int) -> Seq<u8>
    recommends
        0 <= x < 0x100000000,
{
    seq![
        (x % 0x100) as u8,
        ((x / 0x100) % 0x100) as u8,
        ((x / 0x10000) % 0x100) as u8,
        ((x / 0x1000000) % 0x100) as u8,
    ]
}

/// The value of the eight bytes of `s` at `i`, read little-endian.
pub open spec fn le_val_8(s: Seq<u8>, i: int) -> int
    recommends
        0 <= i,
        i + 8 <= s.len(),
{
    s[i] as int + 0x100 * (s[i + 1] as int + 0x100 * (s[i + 2] as int + 0x100 * (s[i + 3] as int
        + 0x100 * (s[i + 4] as int + 0x100 * (s[i + 5] as int + 0x100 * (s[i + 6] as int + 0x100
        * s[i + 7] as int))))))
}

/// The value of the four bytes of `s` at `i`, read little-endian.
pub open spec fn le_val_4(s: Seq<u8>, i: int) -> int
    recommends
        0 <= i,
        i + 4 <= s.len(),
{
    s[i] as int + 0x100 * (s[i + 1] as int + 0x100 * (s[i + 2] as int + 0x100 * s[i + 3] as int))
}

/// Reading back the eight digits of `x` yields `x`.
pub proof fn lemma_u64_le_val(x: int)
    requires
        0 <= x < 0x10000000000000000,
    ensures
        u64_le(x).len() == 8,
        le_val_8(u64_le(x), 0) == x,
{
    lemma_mod_bound(x, 0x100);
    lemma_mod_bound(x / 0x100, 0x100);
    lemma_mod_bound(x / 0x10000, 0x100);
    lemma_mod_bound(x / 0x1000000, 0x100);
    lemma_mod_bound(x / 0x100000000, 0x100);
    lemma_mod_bound(x / 0x10000000000, 0x100);
    lemma_mod_bound(x / 0x1000000000000, 0x100);
    lemma_mod_bound(x / 0x100000000000000, 0x100);
    lemma_div_denominator(x, 0x100, 0x100);
    lemma_div_denominator(x, 0x10000, 0x100);
    lemma_div_denominator(x, 0x1000000, 0x100);
    lemma_div_denominator(x, 0x100000000, 0x100);
    lemma_div_denominator(x, 0x10000000000, 0x100);
    lemma_div_denominator(x, 0x1000000000000, 0x100);
    lemma_div_denominator(x, 0x100000000000000, 0x100);
    lemma_basic_div(x, 0x10000000000000000);
    lemma_fundamental_div_mod(x, 0x100);
    lemma_fundamental_div_mod(x / 0x100, 0x100);
    lemma_fundamental_div_mod(x / 0x10000, 0x100);
    lemma_fundamental_div_mod(x / 0x1000000, 0x100);
    lemma_fundamental_div_mod(x / 0x100000000, 0x100);
    lemma_fundamental_div_mod(x / 0x10000000000, 0x100);
    lemma_fundamental_div_mod(x / 0x1000000000000, 0x100);
    lemma_fundamental_div_mod(x / 0x100000000000000, 0x100);
}

/// Reading back the four digits of `x` yields `x`.
pub proof fn lemma_u32_le_val(x: int)
    requires
        0 <= x < 0x100000000,
    ensures
        u32_le(x).len() == 4,
        le_val_4(u32_le(x), 0) == x,
{
    lemma_mod_bound(x, 0x100);
    lemma_mod_bound(x / 0x100, 0x100);
    lemma_mod_bound(x / 0x10000, 0x100);
    lemma_mod_bound(x / 0x1000000, 0x100);
    lemma_div_denominator(x, 0x100, 0x100);
    lemma_div_denominator(x, 0x10000, 0x100);
    lemma_basic_div(x, 0x100000000);
    lemma_fundamental_div_mod(x, 0x100);
    lemma_fundamental_div_mod(x / 0x100, 0x100);
    lemma_fundamental_div_mod(x / 0x10000, 0x100);
    lemma_fundamental_div_mod(x / 0x1000000, 0x100);
}

/// Little-endian reads look only at the bytes they cover.
pub proof fn lemma_le_val_8_subrange(s: Seq<u8>, i: int)
    requires
        0 <= i,
        i + 8 <= s.len(),
    ensures
        le_val_8(s, i) == le_val_8(s.subrange(i, i + 8), 0),
{
}

/// Little-endian reads look only at the bytes they cover.
pub proof fn lemma_le_val_4_subrange(s: Seq<u8>, i: int)
    requires
        0 <= i,
        i + 4 <= s.len(),
    ensures
        le_val_4(s, i) == le_val_4(s.subrange(i, i + 4), 0),
{
}

/// Whether `v` is the scalar value of some character: everything up to
/// 0x10FFFF except the surrogate range.
pub open spec fn char_valid(v: int) -> bool {
    0 <= v <= 0x10FFFF && !(0xD800 <= v <= 0xDFFF)
}

/// The character with scalar value `v`.
pub open spec fn char_from(v: int) -> char
    recommends
        char_valid(v),
{
    (v as u32) as char
}

/// The scalar value of `c`.
pub open spec fn char_code(c: char) -> int {
    (c as u32) as int
}

/// A character's scalar value is always valid, and taking the character of
/// that value gives the character back.
pub proof fn lemma_char_code_valid(c: char)
    ensures
        char_valid(char_code(c)),
        char_from(char_code(c)) == c,
{
    vstd::utf8::char_is_scalar(c);
    vstd::utf8::char_u32_cast(c, c as u32);
}

/// Parses a `u64`: eight bytes, little-endian.
pub open spec fn dec_u64(s: Seq<u8>, i: int) -> Option<(int, int)> {
    if 0 <= i && i + 8 <= s.len() {
        Some((le_val_8(s, i), i + 8))
    } else {
        None
    }
}

/// Parses one character: four bytes, little-endian, which must form a
/// valid scalar value.
pub open spec fn dec_char(s: Seq<u8>, i: int) -> Option<(char, int)> {
    if 0 <= i && i + 4 <= s.len() {
        let v = le_val_4(s, i);
        if char_valid(v) {
            Some((char_from(v), i + 4))
        } else {
            None
        }
    } else {
        None
    }
}

/// Parses `n` characters in a row.
pub open spec fn dec_chars(s: Seq<u8>, i: int, n: int) -> Option<(Seq<char>, int)>
    decreases n,
{
    if n <= 0 {
        Some((Seq::empty(), i))
    } else {
        match dec_char(s, i) {
            None => None,
            Some((c, j)) => match dec_chars(s, j, n - 1) {
                None => None,
                Some((cs, k)) => Some((seq![c] + cs, k)),
            },
        }
    }
}

/// Parses a string: a `u64` character count, then that many characters.
pub open spec fn dec_string(s: Seq<u8>, i: int) -> Option<(Seq<char>, int)> {
    match dec_u64(s, i) {
        None => None,
        Some((n, j)) => dec_chars(s, j, n),
    }
}

/// Parses `n` strings in a row.
pub open spec fn dec_tags(s: Seq<u8>, i: int, n: int) -> Option<(Seq<Seq<char>>, int)>
    decreases n,
{
    if n <= 0 {
        Some((Seq::empty(), i))
    } else {
        match dec_string(s, i) {
            None => None,
            Some((t, j)) => match dec_tags(s, j, n - 1) {
                None => None,
                Some((ts, k)) => Some((seq![t] + ts, k)),
            },
        }
    }
}

/// Parses one entry: id, timestamp, content, then the counted tags.
pub open spec fn dec_entry(s: Seq<u8>, i: int) -> Option<(EntryModel, int)> {
    match dec_u64(s, i) {
        None => None,
        Some((id, j1)) => match dec_string(s, j1) {
            None => None,
            Some((ts, j2)) => match dec_string(s, j2) {
                None => None,
                Some((ct, j3)) => match dec_u64(s, j3) {
                    None => None,
                    Some((ntags, j4)) => match dec_tags(s, j4, ntags) {
                        None => None,
                        Some((tg, j5)) => Some(
                            (EntryModel { id: id, timestamp: ts, content: ct, tags: tg }, j5),
                        ),
                    },
                },
            },
        },
    }
}

/// Parses `n` entries in a row.
pub open spec fn dec_entries(s: Seq<u8>, i: int, n: int) -> Option<(Seq<EntryModel>, int)>
    decreases n,
{
    if n <= 0 {
        Some((Seq::empty(), i))
    } else {
        match dec_entry(s, i) {
            None => None,
            Some((e, j)) => match dec_entries(s, j, n - 1) {
                None => None,
                Some((es, k)) => Some((seq![e] + es, k)),
            },
        }
    }
}

/// The encoding of the characters of `t` from index `k` on, four bytes each.
pub open spec fn enc_chars_from(t: Seq<char>, k: int) -> Seq<u8>
    decreases t.len() - k,
{
    if k < 0 || k >= t.len() {
        Seq::empty()
    } else {
        u32_le(char_code(t[k])) + enc_chars_from(t, k + 1)
    }
}

/// The encoding of a string: its length, then its characters.
pub open spec fn enc_string(t: Seq<char>) -> Seq<u8> {
    u64_le(t.len() as int) + enc_chars_from(t, 0)
}

/// The encoding of the strings of `ts` from index `k` on.
pub open spec fn enc_tags_from(ts: Seq<Seq<char>>, k: int) -> Seq<u8>
    decreases ts.len() - k,
{
    if k < 0 || k >= ts.len() {
        Seq::empty()
    } else {
        enc_string(ts[k]) + enc_tags_from(ts, k + 1)
    }
}

/// The encoding of one entry.
pub open spec fn enc_entry(e: EntryModel) -> Seq<u8> {
    u64_le(e.id) + enc_string(e.timestamp) + enc_string(e.content) + u64_le(e.tags.len() as int)
        + enc_tags_from(e.tags, 0)
}

/// The encoding of the entries of `es` from index `k` on.
pub open spec fn enc_entries_from(es: Seq<EntryModel>, k: int) -> Seq<u8>
    decreases es.len() - k,
{
    if k < 0 || k >= es.len() {
        Seq::empty()
    } else {
        enc_entry(es[k]) + enc_entries_from(es, k + 1)
    }
}

/// The byte form of a whole store: the id counter, the entry count, then
/// the entries in order.
pub open spec fn spec_save(m: StateModel) -> Seq<u8> {
    u64_le(m.next_id) + u64_le(m.entries.len() as int) + enc_entries_from(m.entries, 0)
}

/// What a byte blob decodes to: the counter, the counted entries, with
/// nothing left over, and the result well formed; anything else is corrupt.
pub open spec fn spec_load(s: Seq<u8>) -> Option<StateModel> {
    match dec_u64(s, 0) {
        None => None,
        Some((nid, j1)) => match dec_u64(s, j1) {
            None => None,
            Some((cnt, j2)) => match dec_entries(s, j2, cnt) {
                None => None,
                Some((es, j3)) => if j3 == s.len() && st_wf(
                    StateModel { entries: es, next_id: nid },
                ) {
                    Some(StateModel { entries: es, next_id: nid })
                } else {
                    None
                },
            },
        },
    }
}

/// Whether an entry's id and lengths fit the fixed-width fields of the
/// byte form. Every entry held in an actual store fits.
pub open spec fn entry_fits(e: EntryModel) -> bool {
    &&& 0 <= e.id < 0x10000000000000000
    &&& e.timestamp.len() < 0x10000000000000000
    &&& e.content.len() < 0x10000000000000000
    &&& e.tags.len() < 0x10000000000000000
    &&& forall|k: int| 0 <= k < e.tags.len() ==> (#[trigger] e.tags[k]).len() < 0x10000000000000000
}

/// Whether a state's counter and counts fit the fixed-width fields of the
/// byte form. Every actual store fits.
pub open spec fn fits(m: StateModel) -> bool {
    &&& 0 <= m.next_id < 0x10000000000000000
    &&& m.entries.len() < 0x10000000000000000
    &&& forall|i: int| 0 <= i < m.entries.len() ==> entry_fits(#[trigger] m.entries[i])
}

/// Whether the bytes of `pat` stand in `s` at offset `i`.
pub open spec fn starts_with_at(s: Seq<u8>, i: int, pat: Seq<u8>) -> bool {
    0 <= i && i + pat.len() <= s.len() && s.subrange(i, i + pat.len() as int) == pat
}

/// A concatenation standing at `i` is its first part at `i` and its second
/// part right after.
proof fn lemma_starts_with_split(s: Seq<u8>, i: int, a: Seq<u8>, b: Seq<u8>)
    requires
        starts_with_at(s, i, a + b),
    ensures
        starts_with_at(s, i, a),
        starts_with_at(s, i + a.len(), b),
{
    let whole = a + b;
    let sub = s.subrange(i, i + whole.len() as int);
    assert forall|k: int| 0 <= k < a.len() implies s[i + k] == a[k] by {
        assert(sub[k] == s[i + k]);
        assert(whole[k] == a[k]);
    }
    assert(s.subrange(i, i + a.len() as int) =~= a);
    assert forall|k: int| 0 <= k < b.len() implies s[i + a.len() + k] == b[k] by {
        assert(sub[a.len() + k] == s[i + a.len() + k]);
        assert(whole[a.len() + k] == b[k]);
    }
    assert(s.subrange(i + a.len(), i + a.len() + b.len() as int) =~= b);
}

/// Parsing at an encoded `u64` yields the encoded value.
proof fn lemma_dec_u64_enc(s: Seq<u8>, i: int, x: int)
    requires
        0 <= x < 0x10000000000000000,
        starts_with_at(s, i, u64_le(x)),
    ensures
        dec_u64(s, i) == Some((x, i + 8)),
{
    lemma_u64_le_val(x);
    lemma_le_val_8_subrange(s, i);
    assert(s.subrange(i, i + 8) == u64_le(x));
}

/// Parsing at an encoded character yields the character.
proof fn lemma_dec_char_enc(s: Seq<u8>, i: int, c: char)
    requires
        starts_with_at(s, i, u32_le(char_code(c))),
    ensures
        dec_char(s, i) == Some((c, i + 4)),
{
    lemma_char_code_valid(c);
    lemma_u32_le_val(char_code(c));
    lemma_le_val_4_subrange(s, i);
    assert(s.subrange(i, i + 4) == u32_le(char_code(c)));
}

/// Parsing at the encoded tail of a character sequence yields that tail.
proof fn lemma_dec_chars_enc(s: Seq<u8>, i: int, t: Seq<char>, k: int)
    requires
        0 <= k <= t.len(),
        starts_with_at(s, i, enc_chars_from(t, k)),
    ensures
        dec_chars(s, i, t.len() - k) == Some(
            (t.subrange(k, t.len() as int), i + enc_chars_from(t, k).len()),
        ),
    decreases t.len() - k,
{
    if k == t.len() {
        assert(t.subrange(k, t.len() as int) =~= Seq::empty());
    } else {
        let head = u32_le(char_code(t[k]));
        let tail = enc_chars_from(t, k + 1);
        lemma_starts_with_split(s, i, head, tail);
        lemma_dec_char_enc(s, i, t[k]);
        lemma_dec_chars_enc(s, i + 4, t, k + 1);
        assert(seq![t[k]] + t.subrange(k + 1, t.len() as int) =~= t.subrange(k, t.len() as int));
    }
}

/// Parsing at an encoded string yields the string.
proof fn lemma_dec_string_enc(s: Seq<u8>, i: int, t: Seq<char>)
    requires
        t.len() < 0x10000000000000000,
        starts_with_at(s, i, enc_string(t)),
    ensures
        dec_string(s, i) == Some((t, i + enc_string(t).len())),
{
    lemma_starts_with_split(s, i, u64_le(t.len() as int), enc_chars_from(t, 0));
    lemma_u64_le_val(t.len() as int);
    lemma_dec_u64_enc(s, i, t.len() as int);
    lemma_dec_chars_enc(s, i + 8, t, 0);
    assert(t.subrange(0, t.len() as int) =~= t);
}

/// Parsing at the encoded tail of a string sequence yields that tail.
proof fn lemma_dec_tags_enc(s: Seq<u8>, i: int, ts: Seq<Seq<char>>, k: int)
    requires
        0 <= k <= ts.len(),
        forall|j: int| 0 <= j < ts.len() ==> (#[trigger] ts[j]).len() < 0x10000000000000000,
        starts_with_at(s, i, enc_tags_from(ts, k)),
    ensures
        dec_tags(s, i, ts.len() - k) == Some(
            (ts.subrange(k, ts.len() as int), i + enc_tags_from(ts, k).len()),
        ),
    decreases ts.len() - k,
{
    if k == ts.len() {
        assert(ts.subrange(k, ts.len() as int) =~= Seq::empty());
    } else {
        let head = enc_string(ts[k]);
        let tail = enc_tags_from(ts, k + 1);
        lemma_starts_with_split(s, i, head, tail);
        lemma_dec_string_enc(s, i, ts[k]);
        lemma_dec_tags_enc(s, i + head.len(), ts, k + 1);
        assert(seq![ts[k]] + ts.subrange(k + 1, ts.len() as int) =~= ts.subrange(
            k,
            ts.len() as int,
        ));
    }
}

/// Parsing at an encoded entry yields the entry.
proof fn lemma_dec_entry_enc(s: Seq<u8>, i: int, e: EntryModel)
    requires
        entry_fits(e),
        starts_with_at(s, i, enc_entry(e)),
    ensures
        dec_entry(s, i) == Some((e, i + enc_entry(e).len())),
{
    let a = u64_le(e.id);
    let b = enc_string(e.timestamp);
    let c = enc_string(e.content);
    let d = u64_le(e.tags.len() as int);
    let g = enc_tags_from(e.tags, 0);
    assert(enc_entry(e) == a + b + c + d + g);
    assert(a + b + c + d + g =~= (a + b + c + d) + g);
    lemma_starts_with_split(s, i, a + b + c + d, g);
    assert(a + b + c + d =~= (a + b + c) + d);
    lemma_starts_with_split(s, i, a + b + c, d);
    assert(a + b + c =~= (a + b) + c);
    lemma_starts_with_split(s, i, a + b, c);
    lemma_starts_with_split(s, i, a, b);
    lemma_dec_u64_enc(s, i, e.id);
    lemma_dec_string_enc(s, i + a.len(), e.timestamp);
    lemma_dec_string_enc(s, i + a.len() + b.len(), e.content);
    lemma_u64_le_val(e.tags.len() as int);
    lemma_dec_u64_enc(s, i + a.len() + b.len() + c.len(), e.tags.len() as int);
    lemma_dec_tags_enc(s, i + a.len() + b.len() + c.len() + d.len(), e.tags, 0);
    assert(e.tags.subrange(0, e.tags.len() as int) =~= e.tags);
    let parsed = EntryModel {
        id: e.id,
        timestamp: e.timestamp,
        content: e.content,
        tags: e.tags,
    };
    assert(parsed =~= e);
}

/// Parsing at the encoded tail of an entry sequence yields that tail.
proof fn lemma_dec_entries_enc(s: Seq<u8>, i: int, es: Seq<EntryModel>, k: int)
    requires
        0 <= k <= es.len(),
        forall|j: int| 0 <= j < es.len() ==> entry_fits(#[trigger] es[j]),
        starts_with_at(s, i, enc_entries_from(es, k)),
    ensures
        dec_entries(s, i, es.len() - k) == Some(
            (es.subrange(k, es.len() as int), i + enc_entries_from(es, k).len()),
        ),
    decreases es.len() - k,
{
    if k == es.len() {
        assert(es.subrange(k, es.len() as int) =~= Seq::empty());
    } else {
        let head = enc_entry(es[k]);
        let tail = enc_entries_from(es, k + 1);
        lemma_starts_with_split(s, i, head, tail);
        lemma_dec_entry_enc(s, i, es[k]);
        lemma_dec_entries_enc(s, i + head.len(), es, k + 1);
        assert(seq![es[k]] + es.subrange(k + 1, es.len() as int) =~= es.subrange(
            k,
            es.len() as int,
        ));
    }
}

/// Round trip: decoding the byte form of a well-formed store yields that
/// store back, collection and counter alike.
#[verifier::rlimit(50)]
pub proof fn lemma_save_load_round_trip(m: StateModel)
    requires
        st_wf(m),
        fits(m),
    ensures
        spec_load(spec_save(m)) == Some(m),
{
    let s = spec_save(m);
    let a = u64_le(m.next_id);
    let b = u64_le(m.entries.len() as int);
    let g = enc_entries_from(m.entries, 0);
    assert(s == a + b + g);
    assert(s.subrange(0, s.len() as int) =~= s);
    assert(starts_with_at(s, 0, (a + b) + g));
    assert(a + b + g =~= (a + b) + g);
    lemma_starts_with_split(s, 0, a + b, g);
    lemma_starts_with_split(s, 0, a, b);
    lemma_dec_u64_enc(s, 0, m.next_id);
    lemma_u64_le_val(m.entries.len() as int);
    lemma_dec_u64_enc(s, 8, m.entries.len() as int);
    lemma_dec_entries_enc(s, 16, m.entries, 0);
    assert(m.entries.subrange(0, m.entries.len() as int) =~= m.entries);
    assert(16 + g.len() == s.len());
    let parsed = StateModel { entries: m.entries, next_id: m.next_id };
    assert(parsed =~= m);
}

/// Appends the eight little-endian bytes of `x`.
fn push_u64(out: &mut Vec<u8>, x: u64)
    ensures
        final(out)@ == old(out)@ + u64_le(x as int),
{
    out.push((x % 0x100) as u8);
    out.push(((x / 0x100) % 0x100) as u8);
    out.push(((x / 0x10000) % 0x100) as u8);
    out.push(((x / 0x1000000) % 0x100) as u8);
    out.push(((x / 0x100000000) % 0x100) as u8);
    out.push(((x / 0x10000000000) % 0x100) as u8);
    out.push(((x / 0x1000000000000) % 0x100) as u8);
    out.push(((x / 0x100000000000000) % 0x100) as u8);
    proof {
        assert(out@ =~= old(out)@ + u64_le(x as int));
    }
}

/// Appends the four little-endian bytes of the scalar value of `c`.
fn push_char(out: &mut Vec<u8>, c: char)
    ensures
        final(out)@ == old(out)@ + u32_le(char_code(c)),
{
    let v: u32 = c as u32;
    out.push((v % 0x100) as u8);
    out.push(((v / 0x100) % 0x100) as u8);
    out.push(((v / 0x10000) % 0x100) as u8);
    out.push(((v / 0x1000000) % 0x100) as u8);
    proof {
        assert(out@ =~= old(out)@ + u32_le(char_code(c)));
    }
}

/// Appends the encoding of a string: its length, then its characters.
fn push_string(out: &mut Vec<u8>, t: &Vec<char>)
    ensures
        final(out)@ == old(out)@ + enc_string(t@),
{
    push_u64(out, t.len() as u64);
    let n = t.len();
    let mut k: usize = 0;
    while k < n
        invariant
            n == t@.len(),
            k <= n,
            out@ + enc_chars_from(t@, k as int) =~= old(out)@ + enc_string(t@),
        decreases n - k,
    {
        let ghost pre = out@;
        push_char(out, t[k]);
        proof {
            assert(enc_chars_from(t@, k as int) == u32_le(char_code(t@[k as int]))
                + enc_chars_from(t@, k + 1));
            assert(out@ + enc_chars_from(t@, k + 1) =~= pre + enc_chars_from(t@, k as int));
        }
        k += 1;
    }
    proof {
        assert(enc_chars_from(t@, n as int) =~= Seq::empty());
        assert(out@ + enc_chars_from(t@, n as int) =~= out@);
    }
}

/// Appends the encoding of one entry.
fn push_entry(out: &mut Vec<u8>, e: &crate::entry::DiaryEntry)
    ensures
        final(out)@ == old(out)@ + enc_entry(e@),
{
    push_u64(out, e.id);
    push_string(out, &e.timestamp);
    push_string(out, &e.content);
    proof {
        assert(e@.tags.len() == e.tags@.len());
    }
    push_u64(out, e.tags.len() as u64);
    proof {
        assert(out@ + enc_tags_from(e@.tags, 0) =~= old(out)@ + enc_entry(e@));
    }
    let n = e.tags.len();
    let mut k: usize = 0;
    while k < n
        invariant
            n == e.tags@.len(),
            n == e@.tags.len(),
            k <= n,
            out@ + enc_tags_from(e@.tags, k as int) =~= old(out)@ + enc_entry(e@),
        decreases n - k,
    {
        let ghost pre = out@;
        push_string(out, &e.tags[k]);
        proof {
            assert(e@.tags[k as int] == e.tags@[k as int]@);
            assert(enc_tags_from(e@.tags, k as int) == enc_string(e@.tags[k as int])
                + enc_tags_from(e@.tags, k + 1));
            assert(out@ + enc_tags_from(e@.tags, k + 1) =~= pre + enc_tags_from(
                e@.tags,
                k as int,
            ));
        }
        k += 1;
    }
    proof {
        assert(enc_tags_from(e@.tags, n as int) =~= Seq::empty());
        assert(out@ + enc_tags_from(e@.tags, n as int) =~= out@);
    }
}

/// A parsed head sequence put back in front of a parse result.
pub open spec fn prepend_parsed<T>(pre: Seq<T>, r: Option<(Seq<T>, int)>) -> Option<(Seq<T>, int)> {
    match r {
        None => None,
        Some((rest, j)) => Some((pre + rest, j)),
    }
}

/// Reads a `u64` at `i`: eight bytes, little-endian.
fn parse_u64(b: &Vec<u8>, i: usize) -> (r: Option<(u64, usize)>)
    requires
        i <= b@.len(),
    ensures
        r is Some <==> dec_u64(b@, i as int) is Some,
        r matches Some((x, j)) ==> dec_u64(b@, i as int) == Some((x as int, j as int)) && i < j
            <= b@.len(),
{
    if b.len() - i < 8 {
        return None;
    }
    let v: u64 = b[i] as u64 + 0x100 * (b[i + 1] as u64 + 0x100 * (b[i + 2] as u64 + 0x100 * (b[i
        + 3] as u64 + 0x100 * (b[i + 4] as u64 + 0x100 * (b[i + 5] as u64 + 0x100 * (b[i + 6]
        as u64 + 0x100 * (b[i + 7] as u64)))))));
    proof {
        assert(v as int == le_val_8(b@, i as int));
    }
    Some((v, i + 8))
}

/// Reads one character at `i`: four bytes, little-endian, which must form
/// a valid scalar value.
fn parse_char(b: &Vec<u8>, i: usize) -> (r: Option<(char, usize)>)
    requires
        i <= b@.len(),
    ensures
        r is Some <==> dec_char(b@, i as int) is Some,
        r matches Some((c, j)) ==> dec_char(b@, i as int) == Some((c, j as int)) && i < j
            <= b@.len(),
{
    if b.len() - i < 4 {
        return None;
    }
    let v: u32 = b[i] as u32 + 0x100 * (b[i + 1] as u32 + 0x100 * (b[i + 2] as u32 + 0x100 * (b[i
        + 3] as u32)));
    proof {
        assert(v as int == le_val_4(b@, i as int));
    }
    match char::from_u32(v) {
        Some(c) => {
            proof {
                vstd::utf8::char_u32_cast(c, v);
            }
            Some((c, i + 4))
        },
        None => None,
    }
}

/// Reads a string at `i`: a character count, then that many characters.
fn parse_string(b: &Vec<u8>, i: usize) -> (r: Option<(Vec<char>, usize)>)
    requires
        i <= b@.len(),
    ensures
        r is Some <==> dec_string(b@, i as int) is Some,
        r matches Some((t, j)) ==> dec_string(b@, i as int) == Some((t@, j as int)) && i < j
            <= b@.len(),
{
    let (n, start) = match parse_u64(b, i) {
        Some(p) => p,
        None => {
            return None;
        },
    };
    let mut t: Vec<char> = Vec::new();
    let mut cur = start;
    let mut k: u64 = 0;
    while k < n
        invariant
            i as int + 8 == start,
            start <= cur <= b@.len(),
            k <= n,
            dec_u64(b@, i as int) == Some((n as int, start as int)),
            dec_chars(b@, start as int, n as int) == prepend_parsed(
                t@,
                dec_chars(b@, cur as int, n - k),
            ),
        decreases n - k,
    {
        let ghost pre = t@;
        match parse_char(b, cur) {
            Some((c, j)) => {
                t.push(c);
                proof {
                    assert(dec_chars(b@, cur as int, n - k) == prepend_parsed(
                        seq![c],
                        dec_chars(b@, j as int, n - (k + 1)),
                    ));
                    assert(prepend_parsed(pre, dec_chars(b@, cur as int, n - k))
                        == prepend_parsed(t@, dec_chars(b@, j as int, n - (k + 1)))) by {
                        match dec_chars(b@, j as int, n - (k + 1)) {
                            None => {},
                            Some((cs, jj)) => {
                                assert(pre + (seq![c] + cs) =~= t@ + cs);
                            },
                        }
                    }
                }
                cur = j;
                k += 1;
            },
            None => {
                proof {
                    assert(dec_chars(b@, cur as int, n - k) is None);
                    assert(dec_string(b@, i as int) is None);
                }
                return None;
            },
        }
    }
    proof {
        assert(dec_chars(b@, cur as int, 0) == Some((Seq::<char>::empty(), cur as int)));
        assert(t@ + Seq::<char>::empty() =~= t@);
        assert(dec_string(b@, i as int) == Some((t@, cur as int)));
    }
    Some((t, cur))
}

/// Reads one entry at `i`.
fn parse_entry(b: &Vec<u8>, i: usize) -> (r: Option<(DiaryEntry, usize)>)
    requires
        i <= b@.len(),
    ensures
        r is Some <==> dec_entry(b@, i as int) is Some,
        r matches Some((e, j)) ==> dec_entry(b@, i as int) == Some((e@, j as int)) && i < j
            <= b@.len(),
{
    let (id, i1) = match parse_u64(b, i) {
        Some(p) => p,
        None => {
            return None;
        },
    };
    let (timestamp, i2) = match parse_string(b, i1) {
        Some(p) => p,
        None => {
            return None;
        },
    };
    let (content, i3) = match parse_string(b, i2) {
        Some(p) => p,
        None => {
            return None;
        },
    };
    let (ntags, i4) = match parse_u64(b, i3) {
        Some(p) => p,
        None => {
            return None;
        },
    };
    let ghost ts_v = timestamp@;
    let ghost ct_v = content@;
    let mut tags: Vec<Vec<char>> = Vec::new();
    let mut cur = i4;
    let mut k: u64 = 0;
    while k < ntags
        invariant
            i < i4 as int,
            i4 <= cur <= b@.len(),
            k <= ntags,
            dec_u64(b@, i as int) == Some((id as int, i1 as int)),
            dec_string(b@, i1 as int) == Some((ts_v, i2 as int)),
            dec_string(b@, i2 as int) == Some((ct_v, i3 as int)),
            dec_u64(b@, i3 as int) == Some((ntags as int, i4 as int)),
            dec_tags(b@, i4 as int, ntags as int) == prepend_parsed(
                tags_view(tags@),
                dec_tags(b@, cur as int, ntags - k),
            ),
        decreases ntags - k,
    {
        let ghost pre = tags_view(tags@);
        match parse_string(b, cur) {
            Some((t, j)) => {
                let ghost tv = t@;
                tags.push(t);
                proof {
                    assert(tags_view(tags@) =~= pre.push(tv));
                    assert(dec_tags(b@, cur as int, ntags - k) == prepend_parsed(
                        seq![tv],
                        dec_tags(b@, j as int, ntags - (k + 1)),
                    ));
                    assert(prepend_parsed(pre, dec_tags(b@, cur as int, ntags - k))
                        == prepend_parsed(tags_view(tags@), dec_tags(b@, j as int, ntags - (k + 1))))
                        by {
                        match dec_tags(b@, j as int, ntags - (k + 1)) {
                            None => {},
                            Some((ts, jj)) => {
                                assert(pre + (seq![tv] + ts) =~= pre.push(tv) + ts);
                            },
                        }
                    }
                }
                cur = j;
                k += 1;
            },
            None => {
                proof {
                    assert(dec_tags(b@, cur as int, ntags - k) is None);
                    assert(dec_entry(b@, i as int) is None);
                }
                return None;
            },
        }
    }
    let e = DiaryEntry { id, timestamp, content, tags };
    proof {
        assert(dec_tags(b@, cur as int, 0) == Some((Seq::<Seq<char>>::empty(), cur as int)));
        assert(tags_view(tags@) + Seq::<Seq<char>>::empty() =~= tags_view(tags@));
        assert(dec_tags(b@, i4 as int, ntags as int) == Some((tags_view(tags@), cur as int)));
        assert(e@ =~= (EntryModel {
            id: id as int,
            timestamp: ts_v,
            content: ct_v,
            tags: tags_view(tags@),
        }));
        assert(dec_entry(b@, i as int) == Some((e@, cur as int)));
    }
    Some((e, cur))
}

/// A failure to rebuild a store from persisted bytes.
#[derive(Debug, PartialEq, Eq, Structural)]
pub enum StoreError {
    /// The bytes do not form the byte form of any well-formed store.
    Corrupt,
}

/// Pairwise ascending ids follow from adjacent ascending ids.
proof fn lemma_adjacent_ascending(es: Seq<EntryModel>, i: int, j: int)
    requires
        forall|k: int| 1 <= k < es.len() ==> #[trigger] es[k - 1].id < es[k].id,
        0 <= i < j < es.len(),
    ensures
        es[i].id < es[j].id,
    decreases j - i,
{
    if i + 1 < j {
        lemma_adjacent_ascending(es, i, j - 1);
        assert(es[j - 1].id < es[j].id);
    } else {
        assert(es[j - 1].id < es[j].id);
    }
}

impl DiaryState {
    /// The byte form of the whole store, ready to persist. Decoding it
    /// reproduces the store exactly.
    pub fn save(&self) -> (r: Vec<u8>)
        ensures
            r@ == spec_save(self@),
    {
        let mut out: Vec<u8> = Vec::new();
        push_u64(&mut out, self.next_id());
        let es = self.get_entries();
        proof {
            assert(self@.entries.len() == es@.len());
        }
        push_u64(&mut out, es.len() as u64);
        proof {
            assert(out@ + enc_entries_from(self@.entries, 0) =~= spec_save(self@));
        }
        let n = es.len();
        let mut k: usize = 0;
        while k < n
            invariant
                n == es@.len(),
                n == self@.entries.len(),
                k <= n,
                entries_view(es@) == self@.entries,
                out@ + enc_entries_from(self@.entries, k as int) =~= spec_save(self@),
            decreases n - k,
        {
            let ghost pre = out@;
            push_entry(&mut out, &es[k]);
            proof {
                assert(es@[k as int]@ == self@.entries[k as int]);
                assert(enc_entries_from(self@.entries, k as int) == enc_entry(
                    self@.entries[k as int],
                ) + enc_entries_from(self@.entries, k + 1));
                assert(out@ + enc_entries_from(self@.entries, k + 1) =~= pre + enc_entries_from(
                    self@.entries,
                    k as int,
                ));
            }
            k += 1;
        }
        proof {
            assert(enc_entries_from(self@.entries, n as int) =~= Seq::empty());
            assert(out@ + enc_entries_from(self@.entries, n as int) =~= out@);
        }
        out
    }

    /// Rebuilds a store from a persisted blob. An absent blob yields the
    /// fresh empty store, not an error; bytes that decode to a well-formed
    /// store yield exactly that store; any other bytes are corrupt.
    pub fn load(blob: Option<&Vec<u8>>) -> (r: Result<Self, StoreError>)
        ensures
            match blob {
                None => (r matches Ok(st) && st@.entries == Seq::<EntryModel>::empty()
                    && st@.next_id == 1),
                Some(b) => match spec_load(b@) {
                    Some(m) => (r matches Ok(st) && st@ == m),
                    None => r == Err::<DiaryState, StoreError>(StoreError::Corrupt),
                },
            },
    {
        match blob {
            None => Ok(DiaryState::new()),
            Some(b) => Self::load_bytes(b),
        }
    }

    /// Decodes a present blob, checking the layout and the store invariant.
    fn load_bytes(b: &Vec<u8>) -> (r: Result<Self, StoreError>)
        ensures
            match spec_load(b@) {
                Some(m) => (r matches Ok(st) && st@ == m),
                None => r == Err::<DiaryState, StoreError>(StoreError::Corrupt),
            },
    {
        let (nid, i1) = match parse_u64(b, 0) {
            Some(p) => p,
            None => {
                return Err(StoreError::Corrupt);
            },
        };
        let (cnt, i2) = match parse_u64(b, i1) {
            Some(p) => p,
            None => {
                return Err(StoreError::Corrupt);
            },
        };
        let mut es: Vec<DiaryEntry> = Vec::new();
        let mut cur = i2;
        let mut k: u64 = 0;
        while k < cnt
            invariant
                cur <= b@.len(),
                k <= cnt,
                dec_u64(b@, 0) == Some((nid as int, i1 as int)),
                dec_u64(b@, i1 as int) == Some((cnt as int, i2 as int)),
                dec_entries(b@, i2 as int, cnt as int) == prepend_parsed(
                    entries_view(es@),
                    dec_entries(b@, cur as int, cnt - k),
                ),
            decreases cnt - k,
        {
            let ghost pre = entries_view(es@);
            match parse_entry(b, cur) {
                Some((e, j)) => {
                    let ghost em = e@;
                    es.push(e);
                    proof {
                        assert(entries_view(es@) =~= pre.push(em));
                        assert(dec_entries(b@, cur as int, cnt - k) == prepend_parsed(
                            seq![em],
                            dec_entries(b@, j as int, cnt - (k + 1)),
                        ));
                        assert(prepend_parsed(pre, dec_entries(b@, cur as int, cnt - k))
                            == prepend_parsed(
                            entries_view(es@),
                            dec_entries(b@, j as int, cnt - (k + 1)),
                        )) by {
                            match dec_entries(b@, j as int, cnt - (k + 1)) {
                                None => {},
                                Some((rest, jj)) => {
                                    assert(pre + (seq![em] + rest) =~= pre.push(em) + rest);
                                },
                            }
                        }
                    }
                    cur = j;
                    k += 1;
                },
                None => {
                    proof {
                        assert(dec_entries(b@, cur as int, cnt - k) is None);
                        assert(spec_load(b@) is None);
                    }
                    return Err(StoreError::Corrupt);
                },
            }
        }
        let ghost ev = entries_view(es@);
        proof {
            assert(dec_entries(b@, cur as int, 0) == Some((Seq::<EntryModel>::empty(), cur as int)));
            assert(ev + Seq::<EntryModel>::empty() =~= ev);
            assert(dec_entries(b@, i2 as int, cnt as int) == Some((ev, cur as int)));
        }
        if cur != b.len() {
            proof {
                assert(spec_load(b@) is None);
            }
            return Err(StoreError::Corrupt);
        }
        let ghost m = StateModel { entries: ev, next_id: nid as int };
        if nid < 1 {
            proof {
                assert(!st_wf(m));
                assert(spec_load(b@) is None);
            }
            return Err(StoreError::Corrupt);
        }
        let n = es.len();
        let mut idx: usize = 0;
        while idx < n
            invariant
                n == es@.len(),
                ev == entries_view(es@),
                ev.len() == n,
                m == (StateModel { entries: ev, next_id: nid as int }),
                spec_load(b@) == (if st_wf(m) {
                    Some(m)
                } else {
                    None::<StateModel>
                }),
                idx <= n,
                nid >= 1,
                forall|j: int| 0 <= j < idx ==> 1 <= #[trigger] ev[j].id < nid as int,
                forall|j: int| 1 <= j < idx ==> #[trigger] ev[j - 1].id < ev[j].id,
            decreases n - idx,
        {
            let id = es[idx].id;
            proof {
                assert(ev[idx as int].id == id as int);
            }
            if id < 1 || id >= nid {
                proof {
                    assert(m.entries[idx as int].id == id as int);
                    if st_wf(m) {
                        assert(1 <= m.entries[idx as int].id < m.next_id);
                    }
                    assert(!st_wf(m));
                    assert(spec_load(b@) is None);
                }
                return Err(StoreError::Corrupt);
            }
            if idx > 0 && es[idx - 1].id >= id {
                proof {
                    assert(m.entries[idx - 1].id == es@[idx - 1]@.id);
                    assert(m.entries[idx as int].id == id as int);
                    assert(m.entries[idx - 1].id >= m.entries[idx as int].id);
                    if st_wf(m) {
                        assert(m.entries[idx - 1].id < m.entries[idx as int].id);
                    }
                    assert(!st_wf(m));
                    assert(spec_load(b@) is None);
                }
                return Err(StoreError::Corrupt);
            }
            idx += 1;
        }
        proof {
            assert forall|p: int, q: int| 0 <= p < q < ev.len() implies #[trigger] ev[p].id
                < #[trigger] ev[q].id by {
                lemma_adjacent_ascending(ev, p, q);
            }
            assert(st_wf(m));
            assert(spec_load(b@) == Some(m));
        }
        let st = DiaryState::from_parts(es, nid);
        proof {
            assert(st@ =~= m);
        }
        Ok(st)
    }
}

} // verus!
