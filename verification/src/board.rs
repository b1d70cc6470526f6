//! The board model: coloured, markable squares addressed by `(column, row)`
//! coordinates, with functional (copy-on-write) marking.
//!
//! A [`Board`] is modelled as a `Map<(int, int), Square>` (its view); the
//! executable representation is a vector of coordinate/square entries with
//! pairwise distinct coordinates.

use vstd::prelude::*;
use crate::error::Error;

verus! {

/// A player's annotation on one square.
#[derive(Debug, Clone, Copy, PartialEq, Eq, Structural)]
pub enum Mark {
    Empty,
    Crossed,
    Queen,
}

/// An RGB colour triple, one byte per channel.
#[derive(Debug, Clone, Copy, PartialEq, Eq, Structural)]
pub struct Rgb(pub u8, pub u8, pub u8);

/// One grid position: a colour fixed at construction and a mark that is
/// only ever changed by building a new square.
#[derive(Debug, Clone, Copy, PartialEq, Eq, Structural)]
pub struct Square {
    pub colour: Rgb,
    pub mark: Mark,
}

impl Square {
    /// A fresh square of the given colour, not yet marked.
    pub fn new(colour: Rgb) -> (s: Square)
        ensures
            s.colour == colour,
            s.mark == Mark::Empty,
    {
        Square { colour, mark: Mark::Empty }
    }

    /// The same colour with a new mark; `self` is untouched.
    pub fn mark_with(&self, mark: Mark) -> (s: Square)
        ensures
            s.colour == self.colour,
            s.mark == mark,
    {
        Square { colour: self.colour, mark }
    }

    /// The square's current mark.
    pub fn get_mark(&self) -> (m: Mark)
        ensures
            m == self.mark,
    {
        self.mark
    }
}

/// One board entry: the square at column `x`, row `y`.
#[derive(Debug, Clone, Copy, PartialEq, Eq, Structural)]
pub struct Entry {
    pub x: usize,
    pub y: usize,
    pub square: Square,
}

/// The coordinate an entry occupies.
pub open spec fn entry_key(e: Entry) -> (int, int) {
    (e.x as int, e.y as int)
}

/// No two entries share a coordinate.
pub open spec fn keys_unique(s: Seq<Entry>) -> bool {
    forall|i: int, j: int| 0 <= i < j < s.len() ==> entry_key(s[i]) != entry_key(s[j])
}

/// The coordinate-to-square mapping an entry sequence denotes; a later
/// entry wins over an earlier one with the same coordinate.
pub open spec fn map_of(s: Seq<Entry>) -> Map<(int, int), Square>
    decreases s.len(),
{
    if s.len() == 0 {
        Map::empty()
    } else {
        map_of(s.drop_last()).insert(entry_key(s.last()), s.last().square)
    }
}

/// A coordinate is in the denoted map exactly when some entry occupies it.
pub proof fn lemma_map_of_dom(s: Seq<Entry>)
    ensures
        forall|k: (int, int)|
            #[trigger] map_of(s).contains_key(k) <==> exists|i: int|
                0 <= i < s.len() && entry_key(s[i]) == k,
    decreases s.len(),
{
    if s.len() > 0 {
        lemma_map_of_dom(s.drop_last());
        assert forall|k: (int, int)| #[trigger] map_of(s).contains_key(k) implies exists|i: int|
            0 <= i < s.len() && entry_key(s[i]) == k by {
            if k == entry_key(s.last()) {
                assert(entry_key(s[s.len() - 1]) == k);
            } else {
                assert(map_of(s.drop_last()).contains_key(k));
                let i = choose|i: int|
                    0 <= i < s.drop_last().len() && entry_key(s.drop_last()[i]) == k;
                assert(s.drop_last()[i] == s[i]);
                assert(entry_key(s[i]) == k);
            }
        }
        assert forall|k: (int, int)|
            (exists|i: int| 0 <= i < s.len() && entry_key(s[i]) == k) implies #[trigger] map_of(
            s,
        ).contains_key(k) by {
            let i = choose|i: int| 0 <= i < s.len() && entry_key(s[i]) == k;
            if i < s.len() - 1 {
                assert(s.drop_last()[i] == s[i]);
                assert(entry_key(s.drop_last()[i]) == k);
                assert(map_of(s.drop_last()).contains_key(k));
            } else {
                assert(k == entry_key(s.last()));
            }
        }
    }
}

/// With distinct coordinates, each entry's square is the one the denoted
/// map holds at that entry's coordinate.
pub proof fn lemma_map_of_index(s: Seq<Entry>, i: int)
    requires
        keys_unique(s),
        0 <= i < s.len(),
    ensures
        map_of(s).contains_key(entry_key(s[i])),
        map_of(s)[entry_key(s[i])] == s[i].square,
    decreases s.len(),
{
    if i == s.len() - 1 {
    } else {
        assert(keys_unique(s.drop_last()));
        assert(s.drop_last()[i] == s[i]);
        lemma_map_of_index(s.drop_last(), i);
        assert(entry_key(s[i]) != entry_key(s[s.len() - 1]));
    }
}

/// Appending an entry inserts its square at its coordinate.
pub proof fn lemma_map_of_push(s: Seq<Entry>, e: Entry)
    ensures
        map_of(s.push(e)) == map_of(s).insert(entry_key(e), e.square),
{
    assert(s.push(e).drop_last() =~= s);
    assert(s.push(e).last() == e);
}

/// Replacing one entry's square (coordinate kept) inserts the new square
/// at that coordinate and changes nothing else.
pub proof fn lemma_map_of_update(s: Seq<Entry>, i: int, e: Entry)
    requires
        keys_unique(s),
        0 <= i < s.len(),
        entry_key(e) == entry_key(s[i]),
    ensures
        map_of(s.update(i, e)) == map_of(s).insert(entry_key(e), e.square),
    decreases s.len(),
{
    let t = s.update(i, e);
    if i == s.len() - 1 {
        assert(t.drop_last() =~= s.drop_last());
        assert(t.last() == e);
        assert(map_of(s).insert(entry_key(e), e.square) =~= map_of(s.drop_last()).insert(
            entry_key(e),
            e.square,
        ));
    } else {
        assert(keys_unique(s.drop_last()));
        assert(s.drop_last()[i] == s[i]);
        lemma_map_of_update(s.drop_last(), i, e);
        assert(t.drop_last() =~= s.drop_last().update(i, e));
        assert(t.last() == s.last());
        assert(entry_key(e) != entry_key(s.last()));
        assert(map_of(t) =~= map_of(s).insert(entry_key(e), e.square));
    }
}

/// With distinct coordinates, the denoted map holds exactly as many
/// coordinates as there are entries.
pub proof fn lemma_map_of_dom_len(s: Seq<Entry>)
    requires
        keys_unique(s),
    ensures
        map_of(s).dom().finite(),
        map_of(s).dom().len() == s.len(),
    decreases s.len(),
{
    if s.len() == 0 {
        assert(map_of(s).dom() =~= Set::empty());
    } else {
        assert(keys_unique(s.drop_last()));
        lemma_map_of_dom_len(s.drop_last());
        lemma_map_of_dom(s.drop_last());
        let k = entry_key(s.last());
        assert(!map_of(s.drop_last()).contains_key(k)) by {
            if map_of(s.drop_last()).contains_key(k) {
                let i = choose|i: int|
                    0 <= i < s.drop_last().len() && entry_key(s.drop_last()[i]) == k;
                assert(entry_key(s[i]) == entry_key(s[s.len() - 1]));
            }
        };
        assert(map_of(s).dom() =~= map_of(s.drop_last()).dom().insert(k));
    }
}

/// An immutable snapshot of the grid. Its view is the mapping from
/// `(column, row)` coordinates to squares.
#[derive(Debug)]
pub struct Board {
    pub entries: Vec<Entry>,
}

impl View for Board {
    type V = Map<(int, int), Square>;

    open spec fn view(&self) -> Map<(int, int), Square> {
        map_of(self.entries@)
    }
}

/// The mapping that results from giving the square at `(x, y)` the mark
/// `mark` while keeping its colour; meaningful when `(x, y)` is present.
pub open spec fn marked_map(
    m: Map<(int, int), Square>,
    x: int,
    y: int,
    mark: Mark,
) -> Map<(int, int), Square> {
    m.insert((x, y), Square { colour: m[(x, y)].colour, mark })
}

impl Board {
    /// The representation invariant: no coordinate occurs twice.
    pub open spec fn well_formed(self) -> bool {
        keys_unique(self.entries@)
    }

    /// A board holding exactly the given entries.
    pub fn new(squares: Vec<Entry>) -> (b: Board)
        ensures
            b@ == map_of(squares@),
            b.well_formed() <==> keys_unique(squares@),
    {
        Board { entries: squares }
    }

    /// The index of the entry at `(x, y)`, if the board holds one.
    fn find_entry(&self, x: usize, y: usize) -> (r: Option<usize>)
        ensures
            match r {
                Some(i) => i < self.entries@.len() && entry_key(self.entries@[i as int]) == (
                    x as int,
                    y as int,
                ),
                None => forall|j: int|
                    0 <= j < self.entries@.len() ==> entry_key(self.entries@[j]) != (
                        x as int,
                        y as int,
                    ),
            },
    {
        let n = self.entries.len();
        let mut i: usize = 0;
        while i < n
            invariant
                i <= n,
                n == self.entries@.len(),
                forall|j: int|
                    0 <= j < i ==> entry_key(self.entries@[j]) != (x as int, y as int),
            decreases n - i,
        {
            let e = self.entries[i];
            if e.x == x && e.y == y {
                return Some(i);
            }
            i = i + 1;
        }
        None
    }

    /// The square at `(x, y)`, if the board holds that coordinate.
    pub fn get_square(&self, x: usize, y: usize) -> (r: Option<Square>)
        requires
            self.well_formed(),
        ensures
            match r {
                Some(sq) => self@.contains_key((x as int, y as int)) && sq == self@[
                    (x as int, y as int)
                ],
                None => !self@.contains_key((x as int, y as int)),
            },
    {
        proof {
            lemma_map_of_dom(self.entries@);
        }
        match self.find_entry(x, y) {
            Some(i) => {
                proof {
                    lemma_map_of_index(self.entries@, i as int);
                }
                Some(self.entries[i].square)
            },
            None => None,
        }
    }

    /// A new board identical to this one except that the square at
    /// `(x, y)` carries `mark`; the receiver is left as it was. A
    /// coordinate the board does not hold is reported as `OutOfBounds`.
    pub fn mark_square(&self, x: usize, y: usize, mark: Mark) -> (r: Result<Board, Error>)
        requires
            self.well_formed(),
        ensures
            match r {
                Ok(b) => self@.contains_key((x as int, y as int)) && b@ == marked_map(
                    self@,
                    x as int,
                    y as int,
                    mark,
                ) && b.well_formed(),
                Err(e) => !self@.contains_key((x as int, y as int)) && (e matches
                Error::OutOfBounds),
            },
    {
        proof {
            lemma_map_of_dom(self.entries@);
        }
        let i = match self.find_entry(x, y) {
            Some(i) => i,
            None => {
                return Err(Error::OutOfBounds);
            },
        };
        let n = self.entries.len();
        let old_entry = self.entries[i];
        let updated = Entry { x: old_entry.x, y: old_entry.y, square: Square {
            colour: old_entry.square.colour,
            mark,
        } };
        let mut out: Vec<Entry> = Vec::new();
        let mut j: usize = 0;
        while j < n
            invariant
                j <= n,
                i < n,
                n == self.entries@.len(),
                out@.len() == j,
                updated == (Entry { x: self.entries@[i as int].x, y: self.entries@[i as int].y, square: Square {
                    colour: self.entries@[i as int].square.colour,
                    mark,
                } }),
                forall|l: int|
                    0 <= l < j ==> out@[l] == (if l == i as int {
                        updated
                    } else {
                        self.entries@[l]
                    }),
            decreases n - j,
        {
            if j == i {
                out.push(updated);
            } else {
                out.push(self.entries[j]);
            }
            j = j + 1;
        }
        proof {
            assert(out@ =~= self.entries@.update(i as int, updated));
            lemma_map_of_index(self.entries@, i as int);
            lemma_map_of_update(self.entries@, i as int, updated);
            assert(keys_unique(out@)) by {
                assert forall|a: int, b: int| 0 <= a < b < out@.len() implies entry_key(out@[a])
                    != entry_key(out@[b]) by {
                    assert(entry_key(out@[a]) == entry_key(self.entries@[a]));
                    assert(entry_key(out@[b]) == entry_key(self.entries@[b]));
                }
            }
        }
        Ok(Board { entries: out })
    }

    /// How many squares the board holds.
    pub fn square_count(&self) -> (n: usize)
        requires
            self.well_formed(),
        ensures
            n == self@.dom().len(),
    {
        proof {
            lemma_map_of_dom_len(self.entries@);
        }
        self.entries.len()
    }

    /// Whether the marks on the board respect the puzzle's rules. The
    /// rule set is not yet specified, so every board reports valid.
    pub fn check_validity(&self) -> (r: bool)
        ensures
            r,
    {
        true
    }
}

/// Reading back a mark just written returns exactly that mark, and no
/// square's colour changes; the board keeps the same coordinates.
pub proof fn lemma_mark_round_trip(m: Map<(int, int), Square>, x: int, y: int, mark: Mark)
    requires
        m.contains_key((x, y)),
    ensures
        marked_map(m, x, y, mark)[(x, y)].mark == mark,
        marked_map(m, x, y, mark)[(x, y)].colour == m[(x, y)].colour,
        forall|k: (int, int)|
            #[trigger] marked_map(m, x, y, mark).contains_key(k) <==> m.contains_key(k),
        forall|k: (int, int)|
            m.contains_key(k) ==> #[trigger] marked_map(m, x, y, mark)[k].colour == m[k].colour,
        forall|k: (int, int)|
            m.contains_key(k) && k != (x, y) ==> #[trigger] marked_map(m, x, y, mark)[k] == m[k],
{
}

/// Marking the same square with the same mark twice yields the same
/// mapping as marking it once.
pub proof fn lemma_mark_idempotent(m: Map<(int, int), Square>, x: int, y: int, mark: Mark)
    requires
        m.contains_key((x, y)),
    ensures
        marked_map(marked_map(m, x, y, mark), x, y, mark) == marked_map(m, x, y, mark),
{
    let m1 = marked_map(m, x, y, mark);
    assert(marked_map(m1, x, y, mark) =~= m1);
}

/// Deriving a marked mapping leaves the source mapping's square at that
/// coordinate with the mark it had, even though the derived mapping
/// carries the new one.
pub proof fn lemma_mark_leaves_original(
    m: Map<(int, int), Square>,
    x: int,
    y: int,
    mark: Mark,
    original: Mark,
)
    requires
        m.contains_key((x, y)),
        m[(x, y)].mark == original,
    ensures
        m[(x, y)].mark == original,
        marked_map(m, x, y, mark)[(x, y)].mark == mark,
{
}

} // verus!
