use vstd::prelude::*;

use crate::digits::{dec_digits, usize_to_string};
use crate::errors::LeaderboardError;
use crate::node::{EntryModel, Node};

verus! {

/// The mathematical value of a whole leaderboard: its name, the entries in
/// storage order, and the id counter.
#[verifier::ext_equal]
pub ghost struct LbModel {
    pub name: Seq<char>,
    pub entries: Seq<EntryModel>,
    pub next_id: nat,
}

/// Ranks are contiguous and ascending: the entry stored at position `i`
/// holds rank `i + 1`, so the ranks present are exactly `{1, ..., len}`.
pub open spec fn ranks_contiguous(entries: Seq<EntryModel>) -> bool {
    forall|i: int| 0 <= i < entries.len() ==> (#[trigger] entries[i]).rank == i + 1
}

/// Every id already handed out is below the id counter.
pub open spec fn ids_below(entries: Seq<EntryModel>, next_id: nat) -> bool {
    forall|i: int| 0 <= i < entries.len() ==> (#[trigger] entries[i]).id < next_id
}

impl LbModel {
    /// The invariant that holds before and after every public operation:
    /// ranks form the contiguous set `{1, ..., len}` in ascending storage
    /// order, no entry carries an id at or above the counter, and the
    /// counter itself starts at 1.
    pub open spec fn wf(self) -> bool {
        &&& ranks_contiguous(self.entries)
        &&& ids_below(self.entries, self.next_id)
        &&& self.next_id >= 1
    }
}

/// A requested insertion rank clamped to the occupied range plus one slot at
/// the end: `min(requested, len + 1)`.
pub open spec fn effective_rank(requested: int, len: int) -> int {
    if requested <= len + 1 {
        requested
    } else {
        len + 1
    }
}

/// The entries after inserting a new entry named `nm` with id `id` at rank
/// `r`: entries ahead of rank `r` keep their place, the new entry takes rank
/// `r`, and every entry that held rank `r` or worse moves down one rank.
pub open spec fn insert_model(s: Seq<EntryModel>, r: int, nm: Seq<char>, id: nat) -> Seq<
    EntryModel,
> {
    Seq::new(
        s.len() + 1,
        |i: int|
            if i < r - 1 {
                s[i]
            } else if i == r - 1 {
                EntryModel { name: nm, rank: (i + 1) as nat, id: id }
            } else {
                EntryModel { name: s[i - 1].name, rank: (i + 1) as nat, id: s[i - 1].id }
            },
    )
}

/// The entries after removing the entry at rank `r`: entries ahead of rank
/// `r` keep their place, and every entry that held a worse rank moves up one
/// rank, closing the gap.
pub open spec fn remove_model(s: Seq<EntryModel>, r: int) -> Seq<EntryModel> {
    Seq::new(
        (s.len() - 1) as nat,
        |i: int|
            if i < r - 1 {
                s[i]
            } else {
                EntryModel { name: s[i + 1].name, rank: (i + 1) as nat, id: s[i + 1].id }
            },
    )
}

/// The set of ranks held by the given entries.
pub open spec fn rank_set(entries: Seq<EntryModel>) -> Set<int> {
    Set::new(|r: int| exists|i: int| 0 <= i < entries.len() && (#[trigger] entries[i]).rank == r)
}

/// In every well-formed leaderboard the ranks present are exactly the set
/// `{1, ..., len}`: no gaps, no duplicates. Together with the `wf` clause in
/// the contract of each operation, this holds after every insertion,
/// removal and rank change.
pub proof fn lemma_rank_set_contiguous(m: LbModel)
    requires
        m.wf(),
    ensures
        rank_set(m.entries) == Set::new(|r: int| 1 <= r <= m.entries.len()),
{
    let lhs = rank_set(m.entries);
    let rhs = Set::new(|r: int| 1 <= r <= m.entries.len());
    assert forall|r: int| lhs.contains(r) implies rhs.contains(r) by {
        let i = choose|i: int| 0 <= i < m.entries.len() && (#[trigger] m.entries[i]).rank == r;
        assert(m.entries[i].rank == i + 1);
    };
    assert forall|r: int| rhs.contains(r) implies lhs.contains(r) by {
        assert(m.entries[r - 1].rank == r);
    };
    assert(lhs =~= rhs);
}

/// Inserting an entry at a rank `r` within the occupied range plus one, and
/// then removing the entry at that same rank, restores the original entry
/// sequence exactly: the names, ids and ranks of the remaining entries are
/// unchanged.
pub proof fn lemma_insert_then_remove_identity(s: Seq<EntryModel>, r: int, nm: Seq<char>, id: nat)
    requires
        ranks_contiguous(s),
        1 <= r <= s.len() + 1,
    ensures
        remove_model(insert_model(s, r, nm, id), r) == s,
{
    let rem = remove_model(insert_model(s, r, nm, id), r);
    assert forall|i: int| 0 <= i < s.len() implies rem[i] == s[i] by {
        if i >= r - 1 {
            assert(s[i].rank == i + 1);
            assert(rem[i] =~= s[i]);
        }
    };
    assert(rem =~= s);
}

/// The one-line rendering of an entry: its rank in decimal, a colon and a
/// space, its name, and a newline.
pub open spec fn display_line(e: EntryModel) -> Seq<char> {
    dec_digits(e.rank) + ": "@ + e.name + "\n"@
}

/// A named, rank-ordered list of entries. Ranks are 1-based, unique and
/// gap-free; the backing vector is kept sorted by rank at all times.
#[derive(Debug)]
pub struct Leaderboard {
    name: String,
    entries: Vec<Node>,
    next_id: usize,
}

impl View for Leaderboard {
    type V = LbModel;

    closed spec fn view(&self) -> LbModel {
        LbModel {
            name: self.name@,
            entries: self.entries@.map_values(|n: Node| n@),
            next_id: self.next_id as nat,
        }
    }
}

impl Leaderboard {
    /// The list invariant, stated over the mathematical value.
    pub open spec fn wf(&self) -> bool {
        self@.wf()
    }

    /// A fresh, empty leaderboard with the given name; ids start at 1.
    pub fn new(n: &str) -> (r: Leaderboard)
        ensures
            r.wf(),
            r@.name == n@,
            r@.entries == Seq::<EntryModel>::empty(),
            r@.next_id == 1,
    {
        let r = Leaderboard { name: n.to_owned(), entries: Vec::new(), next_id: 1 };
        proof {
            assert(r@.entries =~= Seq::<EntryModel>::empty());
        }
        r
    }

    /// How many entries the list holds.
    pub fn len(&self) -> (r: usize)
        ensures
            r == self@.entries.len(),
    {
        self.entries.len()
    }

    /// Whether the list holds no entries.
    pub fn is_empty(&self) -> (r: bool)
        ensures
            r <==> self@.entries.len() == 0,
    {
        self.entries.is_empty()
    }

    /// The list's name, which also keys its backing store.
    pub fn name(&self) -> (r: String)
        ensures
            r@ == self@.name,
    {
        self.name.clone()
    }

    /// Assemble a leaderboard directly from its parts. Used by the decoder
    /// once it has checked that the parts form a well-formed state.
    pub(crate) fn from_parts(name: String, entries: Vec<Node>, next_id: usize) -> (r:
        Leaderboard)
        ensures
            r@ == (LbModel {
                name: name@,
                entries: entries@.map_values(|n: Node| n@),
                next_id: next_id as nat,
            }),
    {
        Leaderboard { name, entries, next_id }
    }

    /// The list's name, borrowed.
    pub(crate) fn name_str(&self) -> (r: &str)
        ensures
            r@ == self@.name,
    {
        self.name.as_str()
    }

    /// The backing vector of entries, borrowed, in rank order.
    pub(crate) fn entries_vec(&self) -> (r: &Vec<Node>)
        ensures
            r@.map_values(|n: Node| n@) == self@.entries,
    {
        &self.entries
    }

    /// The id the next created entry would receive.
    pub fn next_id(&self) -> (r: usize)
        ensures
            r as nat == self@.next_id,
    {
        self.next_id
    }

    /// The numbers stored in a leaderboard all fit the machine word they
    /// are kept in.
    pub proof fn lemma_view_bounds(&self)
        ensures
            self@.next_id <= usize::MAX,
            self@.entries.len() <= usize::MAX,
            forall|i: int|
                0 <= i < self@.entries.len() ==> (#[trigger] self@.entries[i]).rank <= usize::MAX
                    && self@.entries[i].id <= usize::MAX,
    {
        assert(self.entries.len() == self.entries@.len());
        assert(self@.entries.len() == self.entries@.len());
        assert forall|i: int|
            0 <= i < self@.entries.len() implies (#[trigger] self@.entries[i]).rank <= usize::MAX
            && self@.entries[i].id <= usize::MAX by {
            assert(self@.entries[i] == self.entries@[i]@);
        };
    }

    /// One line per entry, in rank order: `"<rank>: <name>\n"`.
    #[verifier::loop_isolation(false)]
    pub fn write_to_vector(&self) -> (r: Vec<String>)
        ensures
            r@.len() == self@.entries.len(),
            forall|i: int| 0 <= i < r@.len() ==> (#[trigger] r@[i])@ == display_line(
                self@.entries[i],
            ),
    {
        let mut out: Vec<String> = Vec::new();
        let mut i: usize = 0;
        while i < self.entries.len()
            invariant
                i <= self.entries@.len(),
                out@.len() == i,
                forall|j: int| 0 <= j < i ==> (#[trigger] out@[j])@ == display_line(
                    self@.entries[j],
                ),
            decreases self.entries@.len() - i,
        {
            let mut line = usize_to_string(self.entries[i].rank);
            line.append(": ");
            line.append(self.entries[i].name.as_str());
            line.append("\n");
            out.push(line);
            i = i + 1;
        }
        out
    }

    /// The path of the file that stores the leaderboard with the given
    /// name: `Leaderboards/<name>.json`.
    pub fn get_leaderboard_file_location(name: &str) -> (r: String)
        ensures
            r@ == "Leaderboards/"@ + name@ + ".json"@,
    {
        let mut s = "Leaderboards/".to_owned();
        s.append(name);
        s.append(".json");
        s
    }

    /// Place `node` at rank `rank`, pushing every entry at that rank or
    /// worse down one rank. The caller supplies a node already carrying the
    /// target rank and a fresh id; a rank below 1 is refused and the list is
    /// left unchanged.
    #[verifier::loop_isolation(false)]
    pub fn insert_node_at_rank(&mut self, node: Node, rank: usize) -> (r: Result<
        usize,
        LeaderboardError,
    >)
        requires
            old(self).wf(),
            rank >= 1 ==> rank <= old(self)@.entries.len() + 1,
            rank >= 1 ==> node@.rank == rank && node@.id < old(self)@.next_id,
        ensures
            rank < 1 ==> r == Err::<usize, LeaderboardError>(LeaderboardError::InvalidRank)
                && final(self)@ == old(self)@,
            rank >= 1 ==> r == Ok::<usize, LeaderboardError>(rank) && final(self)@.entries == insert_model(
                old(self)@.entries,
                rank as int,
                node@.name,
                node@.id,
            ) && final(self)@.name == old(self)@.name && final(self)@.next_id == old(self)@.next_id
                && final(self).wf(),
    {
        if rank < 1 {
            return Err(LeaderboardError::InvalidRank);
        }
        let ghost nn = node@;
        let ghost target = insert_model(old(self)@.entries, rank as int, nn.name, nn.id);
        let idx = rank - 1;
        self.entries.insert(idx, node);
        let mut i = rank;
        while i < self.entries.len()
            invariant
                1 <= rank <= old(self)@.entries.len() + 1,
                rank <= i <= self.entries@.len(),
                self.entries@.len() == old(self)@.entries.len() + 1,
                self.name@ == old(self)@.name,
                self.next_id == old(self).next_id,
                target.len() == self.entries@.len(),
                forall|j: int| 0 <= j < i ==> (#[trigger] self.entries@[j])@ == target[j],
                forall|j: int|
                    i <= j < self.entries@.len() ==> #[trigger] self.entries@[j] == old(
                        self,
                    ).entries@[j - 1],
            decreases self.entries@.len() - i,
        {
            let nm = self.entries[i].name.clone();
            let id = self.entries[i].id;
            let newrank = i + 1;
            self.entries[i] = Node { name: nm, rank: newrank, id };
            proof {
                assert(self.entries@[i as int]@ =~= target[i as int]);
            }
            i = i + 1;
        }
        proof {
            assert(self@.entries =~= target);
        }
        Ok(rank)
    }

    /// Create a new entry named `name` at the requested rank, clamped to
    /// `min(rank, len + 1)`, and return the id the entry was given. A rank
    /// below 1 is refused with `InvalidRank` and the list is left unchanged.
    pub fn new_entry(&mut self, name: &str, rank: usize) -> (r: Result<usize, LeaderboardError>)
        requires
            old(self).wf(),
            old(self)@.next_id < usize::MAX,
            old(self)@.entries.len() < usize::MAX,
        ensures
            rank < 1 ==> r == Err::<usize, LeaderboardError>(LeaderboardError::InvalidRank)
                && final(self)@ == old(self)@,
            rank >= 1 ==> r == Ok::<usize, LeaderboardError>(old(self)@.next_id as usize)
                && final(self)@.entries == insert_model(
                old(self)@.entries,
                effective_rank(rank as int, old(self)@.entries.len() as int),
                name@,
                old(self)@.next_id,
            ) && final(self)@.name == old(self)@.name && final(self)@.next_id == old(self)@.next_id + 1
                && final(self).wf(),
    {
        if rank < 1 {
            return Err(LeaderboardError::InvalidRank);
        }
        let len = self.entries.len();
        let eff = if rank <= len {
            rank
        } else {
            len + 1
        };
        let id = self.next_id;
        let node = Node { name: name.to_owned(), rank: eff, id };
        self.next_id = self.next_id + 1;
        match self.insert_node_at_rank(node, eff) {
            Ok(_) => Ok(id),
            Err(e) => Err(e),
        }
    }

    /// Remove the entry at `rank` and return its name together with the
    /// rank it was removed from; every entry at a worse rank moves up one
    /// rank, closing the gap. A rank with no entry (below 1 or above the
    /// length) is refused with `RankOutOfBounds` and the list is left
    /// unchanged. The id counter never moves backwards: ids are not reused.
    #[verifier::loop_isolation(false)]
    pub fn remove_node_by_rank(&mut self, rank: usize) -> (r: Result<
        (String, usize),
        LeaderboardError,
    >)
        requires
            old(self).wf(),
        ensures
            rank < 1 || rank > old(self)@.entries.len() ==> r == Err::<
                (String, usize),
                LeaderboardError,
            >(LeaderboardError::RankOutOfBounds) && final(self)@ == old(self)@,
            1 <= rank <= old(self)@.entries.len() ==> (match r {
                Ok(p) => p.0@ == old(self)@.entries[rank - 1].name && p.1 == rank,
                Err(_) => false,
            }) && final(self)@.entries == remove_model(old(self)@.entries, rank as int)
                && final(self)@.name == old(self)@.name && final(self)@.next_id == old(
                self,
            )@.next_id && final(self).wf(),
    {
        let len = self.entries.len();
        if rank < 1 || rank > len {
            return Err(LeaderboardError::RankOutOfBounds);
        }
        let ghost target = remove_model(old(self)@.entries, rank as int);
        let removed_name = self.entries[rank - 1].name.clone();
        self.entries.remove(rank - 1);
        let mut i = rank - 1;
        while i < self.entries.len()
            invariant
                1 <= rank <= old(self)@.entries.len(),
                rank - 1 <= i <= self.entries@.len(),
                self.entries@.len() == old(self)@.entries.len() - 1,
                self.name@ == old(self)@.name,
                self.next_id == old(self).next_id,
                target.len() == self.entries@.len(),
                forall|j: int| 0 <= j < i ==> (#[trigger] self.entries@[j])@ == target[j],
                forall|j: int|
                    i <= j < self.entries@.len() ==> #[trigger] self.entries@[j] == old(
                        self,
                    ).entries@[j + 1],
            decreases self.entries@.len() - i,
        {
            let nm = self.entries[i].name.clone();
            let id = self.entries[i].id;
            let newrank = i + 1;
            self.entries[i] = Node { name: nm, rank: newrank, id };
            proof {
                assert(self.entries@[i as int]@ =~= target[i as int]);
            }
            i = i + 1;
        }
        proof {
            assert(self@.entries =~= target);
        }
        Ok((removed_name, rank))
    }

    /// Move the entry at `rank` to `to_rank`: remove it, then insert it —
    /// with its name and id preserved — at `to_rank` clamped against the
    /// post-removal length. The result is the rank the entry landed on.
    ///
    /// There is no rollback: when `rank` names no entry the list is
    /// unchanged and the removal's `RankOutOfBounds` is passed through; when
    /// `to_rank` is below 1 the insertion's `InvalidRank` is passed through
    /// and the list is left with the entry removed. Either way the rank
    /// invariant still holds.
    pub fn change_rank(&mut self, rank: usize, to_rank: usize) -> (r: Result<
        usize,
        LeaderboardError,
    >)
        requires
            old(self).wf(),
        ensures
            rank < 1 || rank > old(self)@.entries.len() ==> r == Err::<usize, LeaderboardError>(
                LeaderboardError::RankOutOfBounds,
            ) && final(self)@ == old(self)@,
            1 <= rank <= old(self)@.entries.len() && to_rank < 1 ==> r == Err::<
                usize,
                LeaderboardError,
            >(LeaderboardError::InvalidRank) && final(self)@.entries == remove_model(
                old(self)@.entries,
                rank as int,
            ) && final(self)@.name == old(self)@.name && final(self)@.next_id == old(self)@.next_id
                && final(self).wf(),
            1 <= rank <= old(self)@.entries.len() && to_rank >= 1 ==> r == Ok::<
                usize,
                LeaderboardError,
            >(effective_rank(to_rank as int, old(self)@.entries.len() - 1) as usize)
                && final(self)@.entries == insert_model(
                remove_model(old(self)@.entries, rank as int),
                effective_rank(to_rank as int, old(self)@.entries.len() - 1),
                old(self)@.entries[rank - 1].name,
                old(self)@.entries[rank - 1].id,
            ) && final(self)@.name == old(self)@.name && final(self)@.next_id == old(self)@.next_id
                && final(self).wf(),
    {
        let len = self.entries.len();
        if rank < 1 || rank > len {
            return Err(LeaderboardError::RankOutOfBounds);
        }
        let mut temp = self.entries[rank - 1].duplicate();
        let _removed = self.remove_node_by_rank(rank);
        if to_rank < 1 {
            return Err(LeaderboardError::InvalidRank);
        }
        let plen = self.entries.len();
        let eff = if to_rank <= plen {
            to_rank
        } else {
            plen + 1
        };
        temp.rank = eff;
        match self.insert_node_at_rank(temp, eff) {
            Ok(v) => Ok(v),
            Err(e) => Err(e),
        }
    }
}

} // verus!
