//! The decoder for the JSON shape described in the encoder's module: a
//! recursive-descent parser over the characters of the input, one spec
//! function and one executable function per form. Each executable function
//! returns exactly what its spec function denotes, so every fact about the
//! decoder can be stated and proved over the spec functions alone.

use vstd::prelude::*;

use crate::digits::{digit_val, is_digit_char};
use crate::errors::LeaderboardError;
use crate::leaderboard::{Leaderboard, LbModel};
use crate::node::{EntryModel, Node};

verus! {

/// The positions just after the literal `lit`, when `lit` stands at
/// position `i` of `s`.
pub open spec fn spec_lit(s: Seq<char>, i: int, lit: Seq<char>) -> Option<int> {
    if 0 <= i && i + lit.len() <= s.len() && s.subrange(i, i + lit.len()) == lit {
        Some(i + lit.len())
    } else {
        None
    }
}

/// The value of a hexadecimal digit character, or -1 for any other
/// character. Both cases of letters are accepted.
pub open spec fn hex_val(c: char) -> int {
    if 48 <= c as u32 <= 57 {
        c as u32 - 48
    } else if 97 <= c as u32 <= 102 {
        c as u32 - 87
    } else if 65 <= c as u32 <= 70 {
        c as u32 - 55
    } else {
        -1
    }
}

/// Whether `c` is a hexadecimal digit character.
pub open spec fn is_hex_char(c: char) -> bool {
    hex_val(c) >= 0
}

/// A scan of a JSON string literal's body from position `i`, with `acc`
/// the characters read so far: plain characters are taken as they stand,
/// a backslash starts an escape, and an unescaped quote ends the literal.
/// Escapes are the two-character ones and `\u00XX`; a `\uXXXX` with a
/// nonzero high byte is refused, as is an input that ends mid-literal.
pub open spec fn spec_string_body(s: Seq<char>, i: int, acc: Seq<char>) -> Option<
    (Seq<char>, int),
>
    decreases s.len() - i,
{
    if i < 0 || i >= s.len() {
        None
    } else if s[i] == '"' {
        Some((acc, i + 1))
    } else if s[i] == '\\' {
        if i + 1 >= s.len() {
            None
        } else {
            let e = s[i + 1];
            if e == '"' {
                spec_string_body(s, i + 2, acc.push('"'))
            } else if e == '\\' {
                spec_string_body(s, i + 2, acc.push('\\'))
            } else if e == '/' {
                spec_string_body(s, i + 2, acc.push('/'))
            } else if e == 'b' {
                spec_string_body(s, i + 2, acc.push(8u8 as char))
            } else if e == 'f' {
                spec_string_body(s, i + 2, acc.push(12u8 as char))
            } else if e == 'n' {
                spec_string_body(s, i + 2, acc.push('\n'))
            } else if e == 'r' {
                spec_string_body(s, i + 2, acc.push('\r'))
            } else if e == 't' {
                spec_string_body(s, i + 2, acc.push('\t'))
            } else if e == 'u' {
                if i + 6 > s.len() {
                    None
                } else if s[i + 2] == '0' && s[i + 3] == '0' && is_hex_char(s[i + 4])
                    && is_hex_char(s[i + 5]) {
                    spec_string_body(
                        s,
                        i + 6,
                        acc.push(((16 * hex_val(s[i + 4]) + hex_val(s[i + 5])) as u8) as char),
                    )
                } else {
                    None
                }
            } else {
                None
            }
        }
    } else {
        spec_string_body(s, i + 1, acc.push(s[i]))
    }
}

/// A JSON string literal standing at position `i`: an opening quote, a
/// body, a closing quote.
pub open spec fn spec_string(s: Seq<char>, i: int) -> Option<(Seq<char>, int)> {
    if 0 <= i < s.len() && s[i] == '"' {
        spec_string_body(s, i + 1, Seq::empty())
    } else {
        None
    }
}

/// A scan of decimal digits from position `i` on, with `acc` the value
/// read so far; it stops at the first character that is not a digit.
pub open spec fn spec_digits(s: Seq<char>, i: int, acc: nat) -> (nat, int)
    decreases s.len() - i,
{
    if 0 <= i < s.len() && is_digit_char(s[i]) {
        spec_digits(s, i + 1, (acc * 10 + digit_val(s[i])) as nat)
    } else {
        (acc, i)
    }
}

/// A number standing at position `i`: one or more decimal digits whose
/// value fits the machine word. A value too large is refused, not clipped.
pub open spec fn spec_number(s: Seq<char>, i: int) -> Option<(nat, int)> {
    if 0 <= i < s.len() && is_digit_char(s[i]) {
        let (v, j) = spec_digits(s, i, 0);
        if v <= usize::MAX as nat {
            Some((v, j))
        } else {
            None
        }
    } else {
        None
    }
}

/// Match the literal `lit` at position `i` of `s`.
#[verifier::loop_isolation(false)]
fn expect_lit(s: &str, i: usize, lit: &str) -> (r: Option<usize>)
    requires
        i <= s@.len(),
    ensures
        match r {
            Some(j) => spec_lit(s@, i as int, lit@) == Some(j as int) && i <= j <= s@.len(),
            None => spec_lit(s@, i as int, lit@) is None,
        },
{
    let n = s.unicode_len();
    let ln = lit.unicode_len();
    if n - i < ln {
        return None;
    }
    let mut k: usize = 0;
    while k < ln
        invariant
            k <= ln,
            i + ln <= n,
            n as nat == s@.len(),
            ln as nat == lit@.len(),
            forall|t: int| 0 <= t < k ==> s@[i + t] == lit@[t],
        decreases ln - k,
    {
        if s.get_char(i + k) != lit.get_char(k) {
            proof {
                if s@.subrange(i as int, i + lit@.len()) == lit@ {
                    assert(s@.subrange(i as int, i + lit@.len())[k as int] == s@[i + k]);
                    assert(false);
                }
            }
            return None;
        }
        k = k + 1;
    }
    proof {
        assert(s@.subrange(i as int, i + lit@.len()) =~= lit@);
    }
    Some(i + ln)
}

/// The value of a hexadecimal digit character, as executable code.
fn hex_val_exec(c: char) -> (r: Option<u8>)
    ensures
        match r {
            Some(v) => hex_val(c) == v && v <= 15,
            None => !is_hex_char(c),
        },
{
    let u: u32 = c as u32;
    if 48 <= u && u <= 57 {
        Some((u - 48) as u8)
    } else if 97 <= u && u <= 102 {
        Some((u - 87) as u8)
    } else if 65 <= u && u <= 70 {
        Some((u - 55) as u8)
    } else {
        None
    }
}

/// Read a JSON string literal standing at position `i` of `s`.
#[verifier::loop_isolation(false)]
fn parse_string(s: &str, i: usize) -> (r: Option<(String, usize)>)
    requires
        i <= s@.len(),
    ensures
        match r {
            Some(p) => spec_string(s@, i as int) == Some((p.0@, p.1 as int)) && i < p.1
                <= s@.len(),
            None => spec_string(s@, i as int) is None,
        },
{
    let n = s.unicode_len();
    if i >= n {
        return None;
    }
    if s.get_char(i) != '"' {
        return None;
    }
    let mut acc = String::new();
    let mut j: usize = i + 1;
    loop
        invariant
            i + 1 <= j <= n,
            n as nat == s@.len(),
            spec_string(s@, i as int) == spec_string_body(s@, j as int, acc@),
        decreases n - j,
    {
        if j >= n {
            return None;
        }
        let c = s.get_char(j);
        if c == '"' {
            return Some((acc, j + 1));
        }
        if c == '\\' {
            if j + 1 >= n {
                return None;
            }
            let e = s.get_char(j + 1);
            if e == '"' {
                acc.push('"');
                j = j + 2;
            } else if e == '\\' {
                acc.push('\\');
                j = j + 2;
            } else if e == '/' {
                acc.push('/');
                j = j + 2;
            } else if e == 'b' {
                acc.push(8u8 as char);
                j = j + 2;
            } else if e == 'f' {
                acc.push(12u8 as char);
                j = j + 2;
            } else if e == 'n' {
                acc.push('\n');
                j = j + 2;
            } else if e == 'r' {
                acc.push('\r');
                j = j + 2;
            } else if e == 't' {
                acc.push('\t');
                j = j + 2;
            } else if e == 'u' {
                if n - j < 6 {
                    return None;
                }
                let c2 = s.get_char(j + 2);
                let c3 = s.get_char(j + 3);
                if c2 != '0' || c3 != '0' {
                    return None;
                }
                let h1 = match hex_val_exec(s.get_char(j + 4)) {
                    Some(v) => v,
                    None => {
                        return None;
                    },
                };
                let h2 = match hex_val_exec(s.get_char(j + 5)) {
                    Some(v) => v,
                    None => {
                        return None;
                    },
                };
                acc.push((16 * h1 + h2) as char);
                j = j + 6;
            } else {
                return None;
            }
        } else {
            acc.push(c);
            j = j + 1;
        }
    }
}

/// Read a number standing at position `i` of `s`.
#[verifier::loop_isolation(false)]
fn parse_number(s: &str, i: usize) -> (r: Option<(usize, usize)>)
    requires
        i <= s@.len(),
    ensures
        match r {
            Some(p) => spec_number(s@, i as int) == Some((p.0 as nat, p.1 as int)) && i < p.1
                <= s@.len(),
            None => spec_number(s@, i as int) is None,
        },
{
    let n = s.unicode_len();
    if i >= n {
        return None;
    }
    let c0 = s.get_char(i);
    let u0: u32 = c0 as u32;
    if !(48 <= u0 && u0 <= 57) {
        return None;
    }
    let mut j: usize = i;
    let mut v: usize = 0;
    let mut over: bool = false;
    let ghost mut gv: nat = 0;
    loop
        invariant
            i <= j <= n,
            i < n,
            n as nat == s@.len(),
            is_digit_char(s@[i as int]),
            spec_digits(s@, i as int, 0) == spec_digits(s@, j as int, gv),
            !over ==> v as nat == gv,
            over ==> gv > usize::MAX as nat,
        decreases n - j,
    {
        if j >= n {
            proof {
                assert(spec_digits(s@, j as int, gv) == (gv, j as int));
            }
            if over {
                return None;
            }
            return Some((v, j));
        }
        let c = s.get_char(j);
        let u: u32 = c as u32;
        if !(48 <= u && u <= 57) {
            proof {
                assert(spec_digits(s@, j as int, gv) == (gv, j as int));
                // at least one digit was read: at `i` itself the first
                // character was checked to be a digit
                if j == i {
                    assert(false);
                }
            }
            if over {
                return None;
            }
            return Some((v, j));
        }
        let d: usize = ((u - 48) as u8) as usize;
        proof {
            assert(is_digit_char(s@[j as int]));
            assert(digit_val(s@[j as int]) == d);
            gv = (gv * 10 + d) as nat;
        }
        if !over {
            match v.checked_mul(10) {
                Some(v10) => {
                    match v10.checked_add(d) {
                        Some(v2) => {
                            v = v2;
                        },
                        None => {
                            over = true;
                        },
                    }
                },
                None => {
                    over = true;
                },
            }
        }
        j = j + 1;
    }
}

/// One encoded entry standing at position `i`: the three fields in their
/// fixed order, each introduced by its quoted key.
pub open spec fn spec_entry(s: Seq<char>, i: int) -> Option<(EntryModel, int)> {
    match spec_lit(s, i, "{\"name\":"@) {
        None => None,
        Some(i1) => match spec_string(s, i1) {
            None => None,
            Some((nm, i2)) => match spec_lit(s, i2, ",\"rank\":"@) {
                None => None,
                Some(i3) => match spec_number(s, i3) {
                    None => None,
                    Some((rank, i4)) => match spec_lit(s, i4, ",\"id\":"@) {
                        None => None,
                        Some(i5) => match spec_number(s, i5) {
                            None => None,
                            Some((id, i6)) => match spec_lit(s, i6, "}"@) {
                                None => None,
                                Some(i7) => Some(
                                    (EntryModel { name: nm, rank: rank, id: id }, i7),
                                ),
                            },
                        },
                    },
                },
            },
        },
    }
}

/// The encoded entries after the first one: either the closing bracket, or
/// a comma and a further entry, repeated. `acc` holds the entries read so
/// far. The bounds tests on `j` only rule out a scan that stands still,
/// which no entry encoding allows; they make the recursion visibly finite.
pub open spec fn spec_entries_rest(s: Seq<char>, i: int, acc: Seq<EntryModel>) -> Option<
    (Seq<EntryModel>, int),
>
    decreases s.len() - i,
{
    if i < 0 || i >= s.len() {
        None
    } else if s[i] == ']' {
        Some((acc, i + 1))
    } else if s[i] == ',' {
        match spec_entry(s, i + 1) {
            None => None,
            Some((e, j)) => if i + 1 < j <= s.len() {
                spec_entries_rest(s, j, acc.push(e))
            } else {
                None
            },
        }
    } else {
        None
    }
}

/// The encoded entry list standing at position `i`, after the opening
/// bracket: empty, or one entry followed by the rest.
pub open spec fn spec_entries(s: Seq<char>, i: int) -> Option<(Seq<EntryModel>, int)> {
    if 0 <= i < s.len() && s[i] == ']' {
        Some((Seq::empty(), i + 1))
    } else {
        match spec_entry(s, i) {
            None => None,
            Some((e, j)) => if i < j <= s.len() {
                spec_entries_rest(s, j, seq![e])
            } else {
                None
            },
        }
    }
}

/// The state encoded by the whole input, when the input is exactly one
/// well-formed encoded leaderboard: the three fields in their fixed order,
/// nothing after the closing brace, and the decoded parts forming a
/// well-formed state. Anything else denotes nothing.
pub open spec fn spec_parse(s: Seq<char>) -> Option<LbModel> {
    match spec_lit(s, 0, "{\"name\":"@) {
        None => None,
        Some(i1) => match spec_string(s, i1) {
            None => None,
            Some((nm, i2)) => match spec_lit(s, i2, ",\"entries\":["@) {
                None => None,
                Some(i3) => match spec_entries(s, i3) {
                    None => None,
                    Some((es, i4)) => match spec_lit(s, i4, ",\"next_id\":"@) {
                        None => None,
                        Some(i5) => match spec_number(s, i5) {
                            None => None,
                            Some((nid, i6)) => match spec_lit(s, i6, "}"@) {
                                None => None,
                                Some(i7) => if i7 == s.len() {
                                    let m = LbModel { name: nm, entries: es, next_id: nid };
                                    if m.wf() {
                                        Some(m)
                                    } else {
                                        None
                                    }
                                } else {
                                    None
                                },
                            },
                        },
                    },
                },
            },
        },
    }
}

/// Read one encoded entry standing at position `i` of `s`.
fn parse_entry(s: &str, i: usize) -> (r: Option<(Node, usize)>)
    requires
        i <= s@.len(),
    ensures
        match r {
            Some(p) => spec_entry(s@, i as int) == Some((p.0@, p.1 as int)) && i < p.1
                <= s@.len(),
            None => spec_entry(s@, i as int) is None,
        },
{
    let i1 = match expect_lit(s, i, "{\"name\":") {
        Some(j) => j,
        None => {
            return None;
        },
    };
    let p1 = match parse_string(s, i1) {
        Some(p) => p,
        None => {
            return None;
        },
    };
    let nm = p1.0;
    let i2 = p1.1;
    let i3 = match expect_lit(s, i2, ",\"rank\":") {
        Some(j) => j,
        None => {
            return None;
        },
    };
    let p2 = match parse_number(s, i3) {
        Some(p) => p,
        None => {
            return None;
        },
    };
    let rank = p2.0;
    let i4 = p2.1;
    let i5 = match expect_lit(s, i4, ",\"id\":") {
        Some(j) => j,
        None => {
            return None;
        },
    };
    let p3 = match parse_number(s, i5) {
        Some(p) => p,
        None => {
            return None;
        },
    };
    let id = p3.0;
    let i6 = p3.1;
    let i7 = match expect_lit(s, i6, "}") {
        Some(j) => j,
        None => {
            return None;
        },
    };
    let node = Node { name: nm, rank: rank, id: id };
    proof {
        assert(spec_entry(s@, i as int) == Some((node@, i7 as int)));
    }
    Some((node, i7))
}

/// Read the encoded entry list standing at position `i` of `s`, after the
/// opening bracket.
#[verifier::loop_isolation(false)]
fn parse_entries(s: &str, i: usize) -> (r: Option<(Vec<Node>, usize)>)
    requires
        i <= s@.len(),
    ensures
        match r {
            Some(p) => spec_entries(s@, i as int) == Some(
                (p.0@.map_values(|n: Node| n@), p.1 as int),
            ) && i < p.1 <= s@.len(),
            None => spec_entries(s@, i as int) is None,
        },
{
    let n = s.unicode_len();
    if i < n && s.get_char(i) == ']' {
        let nodes: Vec<Node> = Vec::new();
        proof {
            assert(nodes@.map_values(|n: Node| n@) =~= Seq::<EntryModel>::empty());
        }
        return Some((nodes, i + 1));
    }
    let p0 = match parse_entry(s, i) {
        Some(p) => p,
        None => {
            return None;
        },
    };
    let ghost e0 = p0.0@;
    let mut nodes: Vec<Node> = Vec::new();
    nodes.push(p0.0);
    let mut j: usize = p0.1;
    proof {
        assert(nodes@.map_values(|n: Node| n@) =~= seq![e0]);
    }
    loop
        invariant
            i < j <= n,
            n as nat == s@.len(),
            spec_entries(s@, i as int) == spec_entries_rest(
                s@,
                j as int,
                nodes@.map_values(|n: Node| n@),
            ),
        decreases n - j,
    {
        if j >= n {
            return None;
        }
        let c = s.get_char(j);
        if c == ']' {
            return Some((nodes, j + 1));
        }
        if c != ',' {
            return None;
        }
        let pe = match parse_entry(s, j + 1) {
            Some(p) => p,
            None => {
                return None;
            },
        };
        let ghost prev = nodes@.map_values(|n: Node| n@);
        let ghost e = pe.0@;
        nodes.push(pe.0);
        proof {
            assert(nodes@.map_values(|n: Node| n@) =~= prev.push(e));
        }
        j = pe.1;
    }
}

impl Leaderboard {
    /// Rebuild a leaderboard from its JSON encoding. Every input that is
    /// not exactly one well-formed encoded leaderboard is rejected with
    /// `MalformedState`; nothing is repaired or renumbered.
    #[verifier::loop_isolation(false)]
    pub fn intialize_from_json(json_string: &str) -> (r: Result<Leaderboard, LeaderboardError>)
        ensures
            match r {
                Ok(l) => spec_parse(json_string@) == Some(l@) && l.wf(),
                Err(e) => e == LeaderboardError::MalformedState && spec_parse(json_string@)
                    is None,
            },
    {
        let s = json_string;
        let n = s.unicode_len();
        let i1 = match expect_lit(s, 0, "{\"name\":") {
            Some(j) => j,
            None => {
                return Err(LeaderboardError::MalformedState);
            },
        };
        let p1 = match parse_string(s, i1) {
            Some(p) => p,
            None => {
                return Err(LeaderboardError::MalformedState);
            },
        };
        let name = p1.0;
        let i2 = p1.1;
        let i3 = match expect_lit(s, i2, ",\"entries\":[") {
            Some(j) => j,
            None => {
                return Err(LeaderboardError::MalformedState);
            },
        };
        let p2 = match parse_entries(s, i3) {
            Some(p) => p,
            None => {
                return Err(LeaderboardError::MalformedState);
            },
        };
        let nodes = p2.0;
        let i4 = p2.1;
        let i5 = match expect_lit(s, i4, ",\"next_id\":") {
            Some(j) => j,
            None => {
                return Err(LeaderboardError::MalformedState);
            },
        };
        let p3 = match parse_number(s, i5) {
            Some(p) => p,
            None => {
                return Err(LeaderboardError::MalformedState);
            },
        };
        let nid = p3.0;
        let i6 = p3.1;
        let i7 = match expect_lit(s, i6, "}") {
            Some(j) => j,
            None => {
                return Err(LeaderboardError::MalformedState);
            },
        };
        if i7 != n {
            return Err(LeaderboardError::MalformedState);
        }
        let ghost es = nodes@.map_values(|n: Node| n@);
        let ghost m = LbModel { name: name@, entries: es, next_id: nid as nat };
        if nid < 1 {
            proof {
                assert(!m.wf());
            }
            return Err(LeaderboardError::MalformedState);
        }
        let mut idx: usize = 0;
        while idx < nodes.len()
            invariant
                idx <= nodes@.len(),
                forall|t: int|
                    0 <= t < idx ==> (#[trigger] es[t]).rank == t + 1 && es[t].id < nid,
            decreases nodes@.len() - idx,
        {
            if nodes[idx].rank != idx + 1 {
                proof {
                    assert(es[idx as int].rank != idx + 1);
                    assert(!m.wf());
                }
                return Err(LeaderboardError::MalformedState);
            }
            if nodes[idx].id >= nid {
                proof {
                    assert(es[idx as int].id >= nid);
                    assert(!m.wf());
                }
                return Err(LeaderboardError::MalformedState);
            }
            idx = idx + 1;
        }
        proof {
            assert(crate::leaderboard::ranks_contiguous(es));
            assert(crate::leaderboard::ids_below(es, nid as nat));
            assert(m.wf());
        }
        let l = Leaderboard::from_parts(name, nodes, nid);
        proof {
            assert(l@ =~= m);
        }
        Ok(l)
    }
}

} // verus!
