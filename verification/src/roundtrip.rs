//! The round-trip law: decoding the encoder's output gives back exactly
//! the encoded state. Stated and proved over the encoder's and decoder's
//! spec functions, one lemma per form of the encoding. Each lemma says:
//! when the input from position `i` on reads as one encoded form followed
//! by a remainder, the decoder at `i` accepts exactly that form and stops
//! at the remainder.

use vstd::prelude::*;

use crate::digits::{
    dec_digits, digit_val, digits_val, is_digit_char, lemma_dec_digits_are_digits,
    lemma_dec_digits_val, lemma_digits_val_cons, pow10,
};
use crate::json::{
    entries_from, entry_json, esc, esc_char, esc_from, hex_digit_char, quoted, spec_serialize,
};
use crate::leaderboard::{Leaderboard, LbModel};
use crate::node::EntryModel;
use crate::parser::{
    hex_val, is_hex_char, spec_digits, spec_entries, spec_entries_rest, spec_entry, spec_lit,
    spec_number, spec_parse, spec_string, spec_string_body,
};

verus! {

/// Split a decomposition of the tail of `s`: when the tail at `i` reads as
/// `a` followed by `b`, the characters of `a` stand at `i`, and the tail
/// at `i + a.len()` reads as `b`.
pub proof fn lemma_suffix(s: Seq<char>, i: int, a: Seq<char>, b: Seq<char>)
    requires
        0 <= i <= s.len(),
        s.subrange(i, s.len() as int) == a + b,
    ensures
        i + a.len() + b.len() == s.len(),
        s.subrange(i + a.len(), s.len() as int) == b,
        forall|k: int| 0 <= k < a.len() ==> s[i + k] == (#[trigger] a[k]),
{
    assert((a + b).len() == s.len() - i);
    assert forall|k: int| 0 <= k < a.len() implies s[i + k] == (#[trigger] a[k]) by {
        assert(s.subrange(i, s.len() as int)[k] == s[i + k]);
        assert((a + b)[k] == a[k]);
    };
    assert forall|k: int|
        0 <= k < b.len() implies s.subrange(i + a.len(), s.len() as int)[k] == b[k] by {
        assert(s.subrange(i, s.len() as int)[a.len() + k] == s[i + a.len() + k]);
        assert((a + b)[a.len() + k] == b[k]);
    };
    assert(s.subrange(i + a.len(), s.len() as int) =~= b);
}

/// When the tail at `i` reads as the literal `lit` followed by `rest`, the
/// literal is matched and the scan stops right after it.
pub proof fn lemma_parse_lit(s: Seq<char>, i: int, lit: Seq<char>, rest: Seq<char>)
    requires
        0 <= i <= s.len(),
        s.subrange(i, s.len() as int) == lit + rest,
    ensures
        spec_lit(s, i, lit) == Some(i + lit.len()),
        s.subrange(i + lit.len(), s.len() as int) == rest,
{
    lemma_suffix(s, i, lit, rest);
    assert(s.subrange(i, i + lit.len()) =~= lit);
}

/// A character below the control boundary survives the trip through its
/// code point and back.
proof fn lemma_low_char_code_round_trip(c: char)
    requires
        (c as u32) < 32,
    ensures
        (((c as u32) as u8) as char) == c,
{
}

/// When the tail at `i` reads as the escaped characters of `nm` from `k`
/// on, a closing quote, and `rest`, the string body scan started at `i`
/// with `acc` already read yields `acc` plus those characters and stops
/// right after the quote.
pub proof fn lemma_parse_esc(
    s: Seq<char>,
    i: int,
    nm: Seq<char>,
    k: int,
    acc: Seq<char>,
    rest: Seq<char>,
)
    requires
        0 <= i <= s.len(),
        0 <= k <= nm.len(),
        s.subrange(i, s.len() as int) == esc_from(nm, k) + seq!['"'] + rest,
    ensures
        spec_string_body(s, i, acc) == Some(
            (acc + nm.subrange(k, nm.len() as int), i + esc_from(nm, k).len() + 1),
        ),
    decreases nm.len() - k,
{
    if k == nm.len() {
        assert(esc_from(nm, k) + seq!['"'] + rest =~= seq!['"'] + rest);
        lemma_suffix(s, i, seq!['"'], rest);
        assert((seq!['"'])[0] == '"');
        assert(s[i] == '"');
        assert(acc + nm.subrange(k, nm.len() as int) =~= acc);
    } else {
        let c = nm[k];
        let tail = esc_from(nm, k + 1) + seq!['"'] + rest;
        assert(esc_from(nm, k) == esc_char(c) + esc_from(nm, k + 1));
        assert(s.subrange(i, s.len() as int) =~= esc_char(c) + tail);
        lemma_suffix(s, i, esc_char(c), tail);
        if c == '"' {
            assert(esc_char(c)[0] == '\\' && esc_char(c)[1] == '"');
            assert(s[i] == '\\' && s[i + 1] == '"');
            lemma_parse_esc(s, i + 2, nm, k + 1, acc.push(c), rest);
            assert(acc.push(c) + nm.subrange(k + 1, nm.len() as int) =~= acc + nm.subrange(
                k,
                nm.len() as int,
            ));
        } else if c == '\\' {
            assert(esc_char(c)[0] == '\\' && esc_char(c)[1] == '\\');
            assert(s[i] == '\\' && s[i + 1] == '\\');
            lemma_parse_esc(s, i + 2, nm, k + 1, acc.push(c), rest);
            assert(acc.push(c) + nm.subrange(k + 1, nm.len() as int) =~= acc + nm.subrange(
                k,
                nm.len() as int,
            ));
        } else if (c as u32) < 32 {
            let hi = (c as u32 / 16) as int;
            let lo = (c as u32 % 16) as int;
            assert(esc_char(c)[0] == '\\' && esc_char(c)[1] == 'u' && esc_char(c)[2] == '0'
                && esc_char(c)[3] == '0' && esc_char(c)[4] == hex_digit_char(hi) && esc_char(
            c,
            )[5] == hex_digit_char(lo));
            assert(s[i] == '\\' && s[i + 1] == 'u' && s[i + 2] == '0' && s[i + 3] == '0');
            assert(s[i + 4] == hex_digit_char(hi) && s[i + 5] == hex_digit_char(lo));
            assert(is_hex_char(s[i + 4]) && is_hex_char(s[i + 5]));
            assert(hex_val(s[i + 4]) == hi && hex_val(s[i + 5]) == lo);
            assert(16 * (c as u32 / 16) + (c as u32 % 16) == c as u32) by {
                vstd::arithmetic::div_mod::lemma_fundamental_div_mod(c as u32 as int, 16);
            };
            lemma_low_char_code_round_trip(c);
            assert(((16 * hex_val(s[i + 4]) + hex_val(s[i + 5])) as u8) as char == c);
            lemma_parse_esc(s, i + 6, nm, k + 1, acc.push(c), rest);
            assert(acc.push(c) + nm.subrange(k + 1, nm.len() as int) =~= acc + nm.subrange(
                k,
                nm.len() as int,
            ));
        } else {
            assert(esc_char(c)[0] == c);
            assert(s[i] == c);
            lemma_parse_esc(s, i + 1, nm, k + 1, acc.push(c), rest);
            assert(acc.push(c) + nm.subrange(k + 1, nm.len() as int) =~= acc + nm.subrange(
                k,
                nm.len() as int,
            ));
        }
    }
}

/// When the tail at `i` reads as the quoted form of `nm` followed by
/// `rest`, the string literal is read back as exactly `nm`.
pub proof fn lemma_parse_quoted(s: Seq<char>, i: int, nm: Seq<char>, rest: Seq<char>)
    requires
        0 <= i <= s.len(),
        s.subrange(i, s.len() as int) == quoted(nm) + rest,
    ensures
        spec_string(s, i) == Some((nm, i + quoted(nm).len())),
        s.subrange(i + quoted(nm).len(), s.len() as int) == rest,
{
    let tail = esc(nm) + seq!['"'] + rest;
    assert(s.subrange(i, s.len() as int) =~= seq!['"'] + tail);
    lemma_suffix(s, i, seq!['"'], tail);
    assert((seq!['"'])[0] == '"');
    assert(s[i] == '"');
    assert(s.subrange(i + 1, s.len() as int) == tail);
    lemma_parse_esc(s, i + 1, nm, 0, Seq::empty(), rest);
    assert(Seq::<char>::empty() + nm.subrange(0, nm.len() as int) =~= nm);
    lemma_suffix(s, i, quoted(nm), rest);
}

/// When the tail at `i` reads as a run of digit characters followed by a
/// remainder that does not begin with a digit, the digit scan consumes
/// exactly the run and weighs the value it carried in on top of it.
pub proof fn lemma_parse_digits(s: Seq<char>, i: int, ds: Seq<char>, acc: nat, rest: Seq<char>)
    requires
        0 <= i <= s.len(),
        forall|t: int| 0 <= t < ds.len() ==> is_digit_char(#[trigger] ds[t]),
        s.subrange(i, s.len() as int) == ds + rest,
        rest.len() == 0 || !is_digit_char(rest[0]),
    ensures
        spec_digits(s, i, acc) == (
            (acc * pow10(ds.len()) + digits_val(ds)) as nat,
            i + ds.len(),
        ),
    decreases ds.len(),
{
    if ds.len() == 0 {
        assert(ds + rest =~= rest);
        if i < s.len() {
            assert(s.subrange(i, s.len() as int)[0] == s[i]);
            assert(s[i] == rest[0]);
        }
        assert(pow10(0) == 1);
        assert(acc * 1 == acc) by (nonlinear_arith);
        assert(digits_val(ds) == 0);
    } else {
        let d = ds[0];
        let dtail = ds.subrange(1, ds.len() as int);
        assert(ds =~= seq![d] + dtail);
        assert(ds + rest =~= seq![d] + (dtail + rest));
        lemma_suffix(s, i, seq![d], dtail + rest);
        assert((seq![d])[0] == d);
        assert(s[i] == d);
        assert(is_digit_char(d));
        assert(digit_val(d) >= 0);
        let acc2 = (acc * 10 + digit_val(d)) as nat;
        lemma_parse_digits(s, i + 1, dtail, acc2, rest);
        lemma_digits_val_cons(d, dtail);
        assert(seq![d] + dtail =~= ds);
        let k1 = dtail.len();
        let p = pow10(k1);
        assert(pow10(ds.len()) == 10 * p);
        assert(acc2 * p == acc * (10 * p) + digit_val(d) * p) by (nonlinear_arith)
            requires
                acc2 == acc * 10 + digit_val(d),
        ;
        assert(digits_val(ds) == digit_val(d) * p + digits_val(dtail));
    }
}

/// When the tail at `i` reads as the decimal digits of `n` followed by a
/// remainder that does not begin with a digit, the number is read back as
/// exactly `n`.
pub proof fn lemma_parse_dec(s: Seq<char>, i: int, n: nat, rest: Seq<char>)
    requires
        0 <= i <= s.len(),
        n <= usize::MAX as nat,
        s.subrange(i, s.len() as int) == dec_digits(n) + rest,
        rest.len() == 0 || !is_digit_char(rest[0]),
    ensures
        spec_number(s, i) == Some((n, i + dec_digits(n).len())),
        s.subrange(i + dec_digits(n).len(), s.len() as int) == rest,
{
    lemma_dec_digits_are_digits(n);
    lemma_parse_digits(s, i, dec_digits(n), 0, rest);
    lemma_dec_digits_val(n);
    lemma_suffix(s, i, dec_digits(n), rest);
    assert(s[i] == dec_digits(n)[0]);
    assert(is_digit_char(s[i]));
    let p = pow10(dec_digits(n).len());
    assert(0 * p == 0) by (nonlinear_arith);
    assert(spec_digits(s, i, 0) == (n, i + dec_digits(n).len()));
}

/// When the tail at `i` reads as one encoded entry followed by `rest`, the
/// entry is read back exactly.
pub proof fn lemma_parse_entry_enc(s: Seq<char>, i: int, e: EntryModel, rest: Seq<char>)
    requires
        0 <= i <= s.len(),
        e.rank <= usize::MAX as nat,
        e.id <= usize::MAX as nat,
        s.subrange(i, s.len() as int) == entry_json(e) + rest,
    ensures
        spec_entry(s, i) == Some((e, i + entry_json(e).len())),
        s.subrange(i + entry_json(e).len(), s.len() as int) == rest,
{
    reveal_strlit("{\"name\":");
    reveal_strlit(",\"rank\":");
    reveal_strlit(",\"id\":");
    reveal_strlit("}");
    let la = "{\"name\":"@;
    let lb = ",\"rank\":"@;
    let lc = ",\"id\":"@;
    let ld = "}"@;
    let q = quoted(e.name);
    let dr = dec_digits(e.rank);
    let di = dec_digits(e.id);
    let r1 = q + (lb + (dr + (lc + (di + (ld + rest)))));
    assert(s.subrange(i, s.len() as int) =~= la + r1);
    lemma_parse_lit(s, i, la, r1);
    let i1: int = i + la.len();
    let r2 = lb + (dr + (lc + (di + (ld + rest))));
    lemma_parse_quoted(s, i1, e.name, r2);
    let i2: int = i1 + q.len();
    let r3 = dr + (lc + (di + (ld + rest)));
    lemma_parse_lit(s, i2, lb, r3);
    let i3: int = i2 + lb.len();
    let r4 = lc + (di + (ld + rest));
    assert(r4[0] == ',');
    assert(!is_digit_char(','));
    lemma_parse_dec(s, i3, e.rank, r4);
    let i4: int = i3 + dr.len();
    let r5 = di + (ld + rest);
    lemma_parse_lit(s, i4, lc, r5);
    let i5: int = i4 + lc.len();
    let r6 = ld + rest;
    assert(r6[0] == '}');
    assert(!is_digit_char('}'));
    lemma_parse_dec(s, i5, e.id, r6);
    let i6: int = i5 + di.len();
    lemma_parse_lit(s, i6, ld, rest);
    let i7: int = i6 + ld.len();
    assert(EntryModel { name: e.name, rank: e.rank, id: e.id } =~= e);
    assert(i7 == i + entry_json(e).len());
    assert(spec_entry(s, i) == Some((e, i + entry_json(e).len())));
}

/// When the tail at `j` reads as the encoded entries of `es` from index
/// `k` on, the remaining-entries scan reads back exactly the entries from
/// `k` on, appended to what it carried in.
pub proof fn lemma_parse_entries_rest_enc(
    s: Seq<char>,
    j: int,
    es: Seq<EntryModel>,
    k: int,
    acc: Seq<EntryModel>,
    rest: Seq<char>,
)
    requires
        0 <= j <= s.len(),
        1 <= k <= es.len(),
        forall|t: int|
            0 <= t < es.len() ==> (#[trigger] es[t]).rank <= usize::MAX as nat && es[t].id
                <= usize::MAX as nat,
        s.subrange(j, s.len() as int) == entries_from(es, k) + rest,
    ensures
        spec_entries_rest(s, j, acc) == Some(
            (acc + es.subrange(k, es.len() as int), j + entries_from(es, k).len()),
        ),
        s.subrange(j + entries_from(es, k).len(), s.len() as int) == rest,
    decreases es.len() - k,
{
    if k == es.len() {
        assert(entries_from(es, k) =~= seq![']']);
        assert(entries_from(es, k) + rest =~= seq![']'] + rest);
        lemma_suffix(s, j, seq![']'], rest);
        assert((seq![']'])[0] == ']');
        assert(s[j] == ']');
        assert(acc + es.subrange(k, es.len() as int) =~= acc);
        assert(s.subrange(j + entries_from(es, k).len(), s.len() as int) == rest);
    } else {
        let ej = entry_json(es[k]);
        let ef1 = entries_from(es, k + 1);
        assert(entries_from(es, k) == seq![','] + ej + ef1);
        let r1 = ej + (ef1 + rest);
        assert(s.subrange(j, s.len() as int) =~= seq![','] + r1);
        lemma_suffix(s, j, seq![','], r1);
        assert((seq![','])[0] == ',');
        assert(s[j] == ',');
        lemma_parse_entry_enc(s, j + 1, es[k], ef1 + rest);
        let j2: int = j + 1 + ej.len();
        reveal_strlit("{\"name\":");
        assert(ej.len() >= 1);
        lemma_parse_entries_rest_enc(s, j2, es, k + 1, acc.push(es[k]), rest);
        assert(acc.push(es[k]) + es.subrange(k + 1, es.len() as int) =~= acc + es.subrange(
            k,
            es.len() as int,
        ));
        assert(s.subrange(j + entries_from(es, k).len(), s.len() as int) == rest);
    }
}

/// When the tail at `i` reads as the encoded entry list of `es` followed
/// by `rest`, the list is read back exactly.
pub proof fn lemma_parse_entries_enc(s: Seq<char>, i: int, es: Seq<EntryModel>, rest: Seq<char>)
    requires
        0 <= i <= s.len(),
        forall|t: int|
            0 <= t < es.len() ==> (#[trigger] es[t]).rank <= usize::MAX as nat && es[t].id
                <= usize::MAX as nat,
        s.subrange(i, s.len() as int) == entries_from(es, 0) + rest,
    ensures
        spec_entries(s, i) == Some((es, i + entries_from(es, 0).len())),
        s.subrange(i + entries_from(es, 0).len(), s.len() as int) == rest,
{
    if es.len() == 0 {
        assert(entries_from(es, 0) =~= seq![']']);
        assert(entries_from(es, 0) + rest =~= seq![']'] + rest);
        lemma_suffix(s, i, seq![']'], rest);
        assert((seq![']'])[0] == ']');
        assert(s[i] == ']');
        assert(es =~= Seq::<EntryModel>::empty());
        assert(s.subrange(i + entries_from(es, 0).len(), s.len() as int) == rest);
    } else {
        let ej = entry_json(es[0]);
        let ef1 = entries_from(es, 1);
        assert(entries_from(es, 0) == ej + ef1);
        let r1 = ef1 + rest;
        assert(s.subrange(i, s.len() as int) =~= ej + r1);
        lemma_suffix(s, i, ej, r1);
        reveal_strlit("{\"name\":");
        assert(ej[0] == '{');
        assert(s[i] == '{');
        assert(s[i] != ']');
        lemma_parse_entry_enc(s, i, es[0], r1);
        let j0: int = i + ej.len();
        assert(ej.len() >= 1);
        lemma_parse_entries_rest_enc(s, j0, es, 1, seq![es[0]], rest);
        assert(seq![es[0]] + es.subrange(1, es.len() as int) =~= es);
        assert(s.subrange(i + entries_from(es, 0).len(), s.len() as int) == rest);
    }
}

/// Decoding the encoding of any well-formed state gives back exactly that
/// state: the round-trip law over the encoder's and decoder's spec
/// functions.
pub proof fn lemma_round_trip(m: LbModel)
    requires
        m.wf(),
        m.next_id <= usize::MAX as nat,
        m.entries.len() <= usize::MAX as nat,
    ensures
        spec_parse(spec_serialize(m)) == Some(m),
{
    let s = spec_serialize(m);
    reveal_strlit("{\"name\":");
    reveal_strlit(",\"entries\":[");
    reveal_strlit(",\"next_id\":");
    reveal_strlit("}");
    let la = "{\"name\":"@;
    let lb = ",\"entries\":["@;
    let lc = ",\"next_id\":"@;
    let ld = "}"@;
    let q = quoted(m.name);
    let ef = entries_from(m.entries, 0);
    let dn = dec_digits(m.next_id);
    assert forall|t: int|
        0 <= t < m.entries.len() implies (#[trigger] m.entries[t]).rank <= usize::MAX as nat
        && m.entries[t].id <= usize::MAX as nat by {
        assert(m.entries[t].rank == t + 1);
        assert(m.entries[t].id < m.next_id);
    };
    let none: Seq<char> = Seq::empty();
    let r1 = q + (lb + (ef + (lc + (dn + (ld + none)))));
    assert(s.subrange(0, s.len() as int) =~= la + r1);
    lemma_parse_lit(s, 0, la, r1);
    let i1: int = la.len() as int;
    let r2 = lb + (ef + (lc + (dn + (ld + none))));
    lemma_parse_quoted(s, i1, m.name, r2);
    let i2: int = i1 + q.len();
    let r3 = ef + (lc + (dn + (ld + none)));
    lemma_parse_lit(s, i2, lb, r3);
    let i3: int = i2 + lb.len();
    let r4 = lc + (dn + (ld + none));
    lemma_parse_entries_enc(s, i3, m.entries, r4);
    let i4: int = i3 + ef.len();
    let r5 = dn + (ld + none);
    lemma_parse_lit(s, i4, lc, r5);
    let i5: int = i4 + lc.len();
    let r6 = ld + none;
    assert(r6[0] == '}');
    assert(!is_digit_char('}'));
    lemma_parse_dec(s, i5, m.next_id, r6);
    let i6: int = i5 + dn.len();
    lemma_parse_lit(s, i6, ld, none);
    let i7: int = i6 + ld.len();
    assert(i7 == s.len());
    assert(LbModel { name: m.name, entries: m.entries, next_id: m.next_id } =~= m);
    assert(spec_parse(s) == Some(m));
}

/// Decoding the encoding of any well-formed leaderboard gives back its
/// exact state: the round-trip law at the level of the stored values.
pub proof fn lemma_leaderboard_round_trip(l: &Leaderboard)
    requires
        l.wf(),
    ensures
        spec_parse(spec_serialize(l@)) == Some(l@),
{
    l.lemma_view_bounds();
    lemma_round_trip(l@);
}

} // verus!
