//! The JSON encoding of a leaderboard and its decoder.
//!
//! A leaderboard is persisted in one canonical shape, with the fields in a
//! fixed order and no whitespace:
//!
//! `{"name":NAME,"entries":[ENTRY,...],"next_id":N}` where each entry is
//! `{"name":NAME,"rank":R,"id":I}`.
//!
//! Names are JSON string literals; the encoder escapes `"` and `\` with a
//! backslash and writes control characters as `\u00XX`. The decoder also
//! accepts the short escapes `\b`, `\f`, `\n`, `\r`, `\t`, `\/` and any
//! `\u00XX`, so it reads everything the encoder writes. Decoding rejects,
//! rather than repairs, every input that does not carry a well-formed
//! state: missing or reordered fields, numbers too large for the machine,
//! ranks out of order or with gaps, ids at or above the stored counter.

use vstd::prelude::*;

use crate::digits::{dec_digits, digit_char, usize_to_string};
use crate::leaderboard::{Leaderboard, LbModel};
use crate::node::{EntryModel, Node};

verus! {

/// The character for the hexadecimal digit `d`, lower case.
pub open spec fn hex_digit_char(d: int) -> char
    recommends
        0 <= d <= 15,
{
    if d < 10 {
        digit_char(d)
    } else {
        ((d + 87) as u8) as char
    }
}

/// The escaped form of one character inside a JSON string literal.
pub open spec fn esc_char(c: char) -> Seq<char> {
    if c == '"' {
        seq!['\\', '"']
    } else if c == '\\' {
        seq!['\\', '\\']
    } else if (c as u32) < 32 {
        seq!['\\', 'u', '0', '0'] + seq![
            hex_digit_char((c as u32 / 16) as int),
            hex_digit_char((c as u32 % 16) as int),
        ]
    } else {
        seq![c]
    }
}

/// The escaped form of the characters of `s` from position `k` on.
pub open spec fn esc_from(s: Seq<char>, k: int) -> Seq<char>
    decreases s.len() - k,
{
    if k < 0 || k >= s.len() {
        Seq::empty()
    } else {
        esc_char(s[k]) + esc_from(s, k + 1)
    }
}

/// The escaped form of a whole string.
pub open spec fn esc(s: Seq<char>) -> Seq<char> {
    esc_from(s, 0)
}

/// A JSON string literal: a quote, the escaped characters, a quote.
pub open spec fn quoted(s: Seq<char>) -> Seq<char> {
    seq!['"'] + esc(s) + seq!['"']
}

/// The encoding of one entry.
pub open spec fn entry_json(e: EntryModel) -> Seq<char> {
    "{\"name\":"@ + quoted(e.name) + ",\"rank\":"@ + dec_digits(e.rank) + ",\"id\":"@
        + dec_digits(e.id) + "}"@
}

/// The encoding of the entry list from index `k` on, up to and including
/// the closing bracket.
pub open spec fn entries_from(es: Seq<EntryModel>, k: int) -> Seq<char>
    decreases es.len() - k,
{
    if k < 0 || k >= es.len() {
        seq![']']
    } else if k == 0 {
        entry_json(es[0]) + entries_from(es, 1)
    } else {
        seq![','] + entry_json(es[k]) + entries_from(es, k + 1)
    }
}

/// The full encoding of a leaderboard state.
pub open spec fn spec_serialize(m: LbModel) -> Seq<char> {
    "{\"name\":"@ + quoted(m.name) + ",\"entries\":["@ + entries_from(m.entries, 0)
        + ",\"next_id\":"@ + dec_digits(m.next_id) + "}"@
}

/// The character for the hexadecimal digit `d`, as executable code.
fn hex_digit_char_exec(d: usize) -> (c: char)
    requires
        d <= 15,
    ensures
        c == hex_digit_char(d as int),
{
    if d < 10 {
        ((d as u8) + 48) as char
    } else {
        ((d as u8) + 87) as char
    }
}

/// Append the JSON string literal for `s` onto `out`.
#[verifier::loop_isolation(false)]
fn append_quoted(out: &mut String, s: &str)
    ensures
        final(out)@ == old(out)@ + quoted(s@),
{
    out.push('"');
    let n = s.unicode_len();
    let mut i: usize = 0;
    while i < n
        invariant
            i <= n,
            n as nat == s@.len(),
            out@ + esc_from(s@, i as int) == old(out)@ + seq!['"'] + esc(s@),
        decreases n - i,
    {
        let c = s.get_char(i);
        let ghost pre = out@;
        if c == '"' {
            out.push('\\');
            out.push('"');
        } else if c == '\\' {
            out.push('\\');
            out.push('\\');
        } else if (c as u32) < 32 {
            let u = c as u32;
            out.push('\\');
            out.push('u');
            out.push('0');
            out.push('0');
            out.push(hex_digit_char_exec((u / 16) as usize));
            out.push(hex_digit_char_exec((u % 16) as usize));
        } else {
            out.push(c);
        }
        proof {
            assert(out@ =~= pre + esc_char(s@[i as int]));
            assert(out@ + esc_from(s@, i + 1) =~= pre + esc_from(s@, i as int));
        }
        i = i + 1;
    }
    out.push('"');
    proof {
        assert(out@ =~= old(out)@ + quoted(s@));
    }
}

impl Leaderboard {
    /// The canonical JSON encoding of this leaderboard.
    #[verifier::loop_isolation(false)]
    pub fn serialize_to_json(&self) -> (r: String)
        ensures
            r@ == spec_serialize(self@),
    {
        let ghost es = self@.entries;
        let ghost after = ",\"next_id\":"@ + dec_digits(self@.next_id) + "}"@;
        let mut out = String::new();
        out.append("{\"name\":");
        append_quoted(&mut out, self.name_str());
        out.append(",\"entries\":[");
        proof {
            assert(out@ + entries_from(es, 0) + after =~= spec_serialize(self@));
        }
        let entries = self.entries_vec();
        let mut k: usize = 0;
        while k < entries.len()
            invariant
                k <= entries@.len(),
                es == entries@.map_values(|n: Node| n@),
                out@ + entries_from(es, k as int) + after == spec_serialize(self@),
            decreases entries@.len() - k,
        {
            let ghost pre = out@;
            if k > 0 {
                out.append(",");
            }
            out.append("{\"name\":");
            append_quoted(&mut out, entries[k].name.as_str());
            out.append(",\"rank\":");
            let rs = usize_to_string(entries[k].rank);
            out.append(rs.as_str());
            out.append(",\"id\":");
            let ids = usize_to_string(entries[k].id);
            out.append(ids.as_str());
            out.append("}");
            proof {
                reveal_strlit(",");
                assert(es[k as int] == entries@[k as int]@);
                if k > 0 {
                    assert(out@ =~= pre + (seq![','] + entry_json(es[k as int])));
                    assert((seq![','] + entry_json(es[k as int])) + entries_from(es, k + 1)
                        =~= entries_from(es, k as int));
                } else {
                    assert(out@ =~= pre + entry_json(es[k as int]));
                    assert(entry_json(es[k as int]) + entries_from(es, k + 1) =~= entries_from(
                        es,
                        k as int,
                    ));
                }
                assert(out@ + entries_from(es, k + 1) + after =~= pre + entries_from(
                    es,
                    k as int,
                ) + after);
            }
            k = k + 1;
        }
        out.append("]");
        out.append(",\"next_id\":");
        let ns = usize_to_string(self.next_id());
        out.append(ns.as_str());
        out.append("}");
        proof {
            reveal_strlit("]");
            assert(entries_from(es, es.len() as int) =~= seq![']']);
            assert(out@ =~= spec_serialize(self@));
        }
        out
    }
}

} // verus!
