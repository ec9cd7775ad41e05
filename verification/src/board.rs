//! Grid coordinates, piece colours, and the two board collections: the map
//! from occupied cells to colours and the set of disabled cells.
use vstd::prelude::*;

verus! {

/// A cell or offset on the grid (the game's integer 2D vector).
#[derive(Clone, Copy, PartialEq, Eq, Structural, Debug, Hash)]
pub struct Coord {
    pub x: i32,
    pub y: i32,
}

/// The colours that pieces and colour conditions can carry. `White` is what
/// an unknown colour name resolves to.
#[derive(Clone, Copy, PartialEq, Eq, Structural, Debug, Hash)]
pub enum PieceColor {
    Red,
    Blue,
    Green,
    Yellow,
    White,
}

/// The mathematical point of a coordinate.
pub open spec fn pt(c: Coord) -> (int, int) {
    (c.x as int, c.y as int)
}

/// The point reached from `pos` by `off`, computed without overflow.
pub open spec fn shift(pos: Coord, off: Coord) -> (int, int) {
    (pos.x + off.x, pos.y + off.y)
}

/// Whether a point lies on a board of the given size.
pub open spec fn within(p: (int, int), size: Coord) -> bool {
    0 <= p.0 < size.x && 0 <= p.1 < size.y
}

/// Whether a point is representable as a `Coord`.
pub open spec fn representable(p: (int, int)) -> bool {
    i32::MIN <= p.0 <= i32::MAX && i32::MIN <= p.1 <= i32::MAX
}

pub proof fn lemma_pt_injective(a: Coord, b: Coord)
    ensures
        pt(a) == pt(b) <==> a == b,
{
}

/// The point `pos + off`, as 64-bit integers.
pub fn shift_exec(pos: Coord, off: Coord) -> (r: (i64, i64))
    ensures
        r.0 as int == shift(pos, off).0,
        r.1 as int == shift(pos, off).1,
{
    (pos.x as i64 + off.x as i64, pos.y as i64 + off.y as i64)
}

/// Whether the 64-bit point lies on the board.
pub fn within_exec(px: i64, py: i64, size: Coord) -> (r: bool)
    ensures
        r == within((px as int, py as int), size),
{
    0 <= px && px < size.x as i64 && 0 <= py && py < size.y as i64
}

/// The coordinate of an on-board point.
pub fn coord_from(px: i64, py: i64, size: Coord) -> (c: Coord)
    requires
        within((px as int, py as int), size),
    ensures
        pt(c) == (px as int, py as int),
{
    Coord { x: px as i32, y: py as i32 }
}

/// The piece placed at `pos` with this shape covers the point.
pub open spec fn covers(pos: Coord, shape: Seq<Coord>, p: (int, int)) -> bool {
    exists|j: int| 0 <= j < shape.len() && shift(pos, shape[j]) == p
}

/// Whether the shape placed at `pos` covers the point given as 64-bit integers.
pub fn shape_covers(pos: Coord, shape: &Vec<Coord>, px: i64, py: i64) -> (r: bool)
    ensures
        r == covers(pos, shape@, (px as int, py as int)),
{
    let mut j: usize = 0;
    while j < shape.len()
        invariant
            j <= shape@.len(),
            forall|k: int| 0 <= k < j ==> shift(pos, #[trigger] shape@[k]) != (px as int, py as int),
        decreases shape@.len() - j,
    {
        let (qx, qy) = shift_exec(pos, shape[j]);
        if qx == px && qy == py {
            return true;
        }
        j = j + 1;
    }
    false
}

pub open spec fn keys_distinct(s: Seq<(Coord, PieceColor)>) -> bool {
    forall|i: int, j: int| 0 <= i < j < s.len() ==> s[i].0 != s[j].0
}

pub open spec fn entry_index(s: Seq<(Coord, PieceColor)>, p: (int, int), i: int) -> bool {
    0 <= i < s.len() && pt(s[i].0) == p
}

/// The map that an association list of cells stands for.
pub open spec fn entries_map(s: Seq<(Coord, PieceColor)>) -> Map<(int, int), PieceColor> {
    Map::new(
        |p: (int, int)| exists|i: int| entry_index(s, p, i),
        |p: (int, int)| s[choose|i: int| entry_index(s, p, i)].1,
    )
}

pub proof fn lemma_entries_map_at(s: Seq<(Coord, PieceColor)>, i: int)
    requires
        keys_distinct(s),
        0 <= i < s.len(),
    ensures
        entries_map(s).contains_key(pt(s[i].0)),
        entries_map(s)[pt(s[i].0)] == s[i].1,
{
    let p = pt(s[i].0);
    assert(entry_index(s, p, i));
    let j = choose|j: int| entry_index(s, p, j);
    assert(entry_index(s, p, j));
    lemma_pt_injective(s[j].0, s[i].0);
    if j < i {
        assert(s[j].0 != s[i].0);
    } else if i < j {
        assert(s[i].0 != s[j].0);
    }
}

/// The occupied cells of a board and their colours.
pub struct CellMap {
    entries: Vec<(Coord, PieceColor)>,
}

impl View for CellMap {
    type V = Map<(int, int), PieceColor>;

    closed spec fn view(&self) -> Map<(int, int), PieceColor> {
        entries_map(self.entries@)
    }
}

impl CellMap {
    #[verifier::type_invariant]
    closed spec fn inv(self) -> bool {
        keys_distinct(self.entries@)
    }

    /// Every cell of the map is a representable coordinate, and the map is finite.
    pub broadcast proof fn lemma_view_props(m: &CellMap)
        ensures
            #![trigger m@]
            forall|p: (int, int)| #[trigger] m@.contains_key(p) ==> representable(p),
            m@.dom().finite(),
    {
        let s = m.entries@;
        assert forall|p: (int, int)| #[trigger] m@.contains_key(p) implies representable(p) by {
            let i = choose|i: int| entry_index(s, p, i);
            assert(entry_index(s, p, i));
        }
        lemma_map_dom_finite(s);
    }

    pub fn new() -> (m: CellMap)
        ensures
            m@ == Map::<(int, int), PieceColor>::empty(),
    {
        let m = CellMap { entries: Vec::new() };
        assert(m@ =~= Map::<(int, int), PieceColor>::empty());
        m
    }

    /// Number of occupied cells.
    pub fn len(&self) -> (n: usize)
        ensures
            n as nat == self@.dom().len(),
    {
        proof {
            use_type_invariant(self);
            lemma_map_len(self.entries@);
        }
        self.entries.len()
    }

    fn find(&self, px: i64, py: i64) -> (r: Option<usize>)
        ensures
            match r {
                Some(i) => entry_index(self.entries@, (px as int, py as int), i as int),
                None => forall|i: int|
                    !#[trigger] entry_index(self.entries@, (px as int, py as int), i),
            },
    {
        let mut i: usize = 0;
        while i < self.entries.len()
            invariant
                i <= self.entries@.len(),
                forall|j: int|
                    0 <= j < i ==> !#[trigger] entry_index(self.entries@, (px as int, py as int), j),
            decreases self.entries@.len() - i,
        {
            let c = self.entries[i].0;
            if c.x as i64 == px && c.y as i64 == py {
                return Some(i);
            }
            i = i + 1;
        }
        None
    }

    /// The colour at a point given as 64-bit integers, if occupied.
    pub fn get_point(&self, px: i64, py: i64) -> (r: Option<PieceColor>)
        ensures
            r == (if self@.contains_key((px as int, py as int)) {
                Some(self@[(px as int, py as int)])
            } else {
                None::<PieceColor>
            }),
    {
        proof {
            use_type_invariant(self);
        }
        match self.find(px, py) {
            Some(i) => {
                proof {
                    lemma_entries_map_at(self.entries@, i as int);
                }
                Some(self.entries[i].1)
            },
            None => None,
        }
    }

    /// The colour at a cell, if occupied.
    pub fn get(&self, cell: Coord) -> (r: Option<PieceColor>)
        ensures
            r == (if self@.contains_key(pt(cell)) {
                Some(self@[pt(cell)])
            } else {
                None::<PieceColor>
            }),
    {
        self.get_point(cell.x as i64, cell.y as i64)
    }

    /// Whether a cell is occupied.
    pub fn contains_key(&self, cell: Coord) -> (r: bool)
        ensures
            r == self@.contains_key(pt(cell)),
    {
        self.get(cell).is_some()
    }

    /// Occupy a cell with a colour, replacing any colour it had.
    pub fn insert(&mut self, cell: Coord, color: PieceColor)
        ensures
            final(self)@ == old(self)@.insert(pt(cell), color),
    {
        proof {
            use_type_invariant(&*self);
        }
        let ghost s = self.entries@;
        let found = self.find(cell.x as i64, cell.y as i64);
        let mut entries: Vec<(Coord, PieceColor)> = Vec::new();
        std::mem::swap(&mut entries, &mut self.entries);
        match found {
            Some(i) => {
                entries.set(i, (cell, color));
                proof {
                    let t = entries@;
                    assert(t == s.update(i as int, (cell, color)));
                    assert forall|a: int, b: int| 0 <= a < b < t.len() implies t[a].0 != t[b].0 by {
                        assert(pt(s[i as int].0) == pt(cell));
                        lemma_pt_injective(s[i as int].0, cell);
                    }
                    lemma_update_map(s, i as int, cell, color);
                }
            },
            None => {
                entries.push((cell, color));
                proof {
                    let t = entries@;
                    assert(t == s.push((cell, color)));
                    assert forall|a: int, b: int| 0 <= a < b < t.len() implies t[a].0 != t[b].0 by {
                        if b == s.len() {
                            assert(!entry_index(s, pt(cell), a));
                        }
                    }
                    lemma_push_map(s, cell, color);
                }
            },
        }
        self.entries = entries;
    }

    /// Free a cell; returns the colour it had.
    pub fn remove(&mut self, cell: Coord) -> (r: Option<PieceColor>)
        ensures
            final(self)@ == old(self)@.remove(pt(cell)),
            r == (if old(self)@.contains_key(pt(cell)) {
                Some(old(self)@[pt(cell)])
            } else {
                None::<PieceColor>
            }),
    {
        proof {
            use_type_invariant(&*self);
        }
        let ghost s = self.entries@;
        let found = self.find(cell.x as i64, cell.y as i64);
        match found {
            Some(i) => {
                let mut entries: Vec<(Coord, PieceColor)> = Vec::new();
                std::mem::swap(&mut entries, &mut self.entries);
                let removed = entries.remove(i);
                proof {
                    lemma_entries_map_at(s, i as int);
                    let t = entries@;
                    assert(t == s.remove(i as int));
                    assert forall|a: int, b: int| 0 <= a < b < t.len() implies t[a].0 != t[b].0 by {
                        if a < i {
                            if b < i {
                            } else {
                                assert(t[b] == s[b + 1]);
                            }
                        } else {
                            assert(t[a] == s[a + 1]);
                            assert(t[b] == s[b + 1]);
                        }
                    }
                    lemma_remove_map(s, i as int);
                }
                self.entries = entries;
                Some(removed.1)
            },
            None => {
                proof {
                    assert(self@ =~= old(self)@.remove(pt(cell)));
                }
                None
            },
        }
    }

    /// Free every cell.
    pub fn clear(&mut self)
        ensures
            final(self)@ == Map::<(int, int), PieceColor>::empty(),
    {
        self.entries = Vec::new();
        assert(self@ =~= Map::<(int, int), PieceColor>::empty());
    }

    /// Whether some occupied cell has the colour.
    pub fn has_color(&self, color: PieceColor) -> (r: bool)
        ensures
            r == exists|p: (int, int)| #[trigger] self@.contains_key(p) && self@[p] == color,
    {
        proof {
            use_type_invariant(self);
        }
        let mut i: usize = 0;
        while i < self.entries.len()
            invariant
                i <= self.entries@.len(),
                keys_distinct(self.entries@),
                forall|j: int| 0 <= j < i ==> (#[trigger] self.entries@[j]).1 != color,
            decreases self.entries@.len() - i,
        {
            if self.entries[i].1 == color {
                proof {
                    lemma_entries_map_at(self.entries@, i as int);
                }
                return true;
            }
            i = i + 1;
        }
        proof {
            assert forall|p: (int, int)| #[trigger] self@.contains_key(p) implies self@[p] != color by {
                let j = choose|j: int| entry_index(self.entries@, p, j);
                assert(entry_index(self.entries@, p, j));
                lemma_entries_map_at(self.entries@, j);
            }
        }
        false
    }

    /// Whether some occupied cell outside `exclude` has the colour.
    pub fn has_color_outside(&self, color: PieceColor, exclude: &CellSet) -> (r: bool)
        ensures
            r == exists|p: (int, int)|
                #[trigger] self@.contains_key(p) && !exclude@.contains(p) && self@[p] == color,
    {
        proof {
            use_type_invariant(self);
        }
        let mut i: usize = 0;
        while i < self.entries.len()
            invariant
                i <= self.entries@.len(),
                keys_distinct(self.entries@),
                forall|j: int|
                    0 <= j < i ==> exclude@.contains(pt((#[trigger] self.entries@[j]).0))
                        || self.entries@[j].1 != color,
            decreases self.entries@.len() - i,
        {
            let (c, col) = self.entries[i];
            if !exclude.contains(c) && col == color {
                proof {
                    lemma_entries_map_at(self.entries@, i as int);
                }
                return true;
            }
            i = i + 1;
        }
        proof {
            assert forall|p: (int, int)|
                #[trigger] self@.contains_key(p) && !exclude@.contains(p) implies self@[p]
                != color by {
                let j = choose|j: int| entry_index(self.entries@, p, j);
                assert(entry_index(self.entries@, p, j));
                lemma_entries_map_at(self.entries@, j);
            }
        }
        false
    }

    /// Whether some occupied cell not covered by the shape placed at `pos`
    /// has the colour.
    pub fn has_color_outside_shape(&self, color: PieceColor, pos: Coord, shape: &Vec<Coord>) -> (r: bool)
        ensures
            r == exists|p: (int, int)|
                #[trigger] self@.contains_key(p) && !covers(pos, shape@, p) && self@[p] == color,
    {
        proof {
            use_type_invariant(self);
        }
        let mut i: usize = 0;
        while i < self.entries.len()
            invariant
                i <= self.entries@.len(),
                keys_distinct(self.entries@),
                forall|j: int|
                    0 <= j < i ==> covers(pos, shape@, pt((#[trigger] self.entries@[j]).0))
                        || self.entries@[j].1 != color,
            decreases self.entries@.len() - i,
        {
            let (c, col) = self.entries[i];
            if col == color && !shape_covers(pos, shape, c.x as i64, c.y as i64) {
                proof {
                    lemma_entries_map_at(self.entries@, i as int);
                }
                return true;
            }
            i = i + 1;
        }
        proof {
            assert forall|p: (int, int)|
                #[trigger] self@.contains_key(p) && !covers(pos, shape@, p) implies self@[p]
                != color by {
                let j = choose|j: int| entry_index(self.entries@, p, j);
                assert(entry_index(self.entries@, p, j));
                lemma_entries_map_at(self.entries@, j);
            }
        }
        false
    }

    /// An independent copy of the map.
    pub fn duplicate(&self) -> (r: CellMap)
        ensures
            r@ == self@,
    {
        proof {
            use_type_invariant(self);
        }
        let mut out: Vec<(Coord, PieceColor)> = Vec::new();
        let mut i: usize = 0;
        while i < self.entries.len()
            invariant
                i <= self.entries@.len(),
                out@ == self.entries@.subrange(0, i as int),
            decreases self.entries@.len() - i,
        {
            out.push(self.entries[i]);
            i = i + 1;
        }
        proof {
            assert(out@ =~= self.entries@);
        }
        CellMap { entries: out }
    }

    /// The occupied cells and their colours, one entry per cell.
    pub fn entries(&self) -> (r: Vec<(Coord, PieceColor)>)
        ensures
            keys_distinct(r@),
            entries_map(r@) == self@,
    {
        proof {
            use_type_invariant(self);
        }
        let mut out: Vec<(Coord, PieceColor)> = Vec::new();
        let mut i: usize = 0;
        while i < self.entries.len()
            invariant
                i <= self.entries@.len(),
                out@ == self.entries@.subrange(0, i as int),
            decreases self.entries@.len() - i,
        {
            out.push(self.entries[i]);
            i = i + 1;
        }
        proof {
            assert(out@ =~= self.entries@);
        }
        out
    }
}

proof fn lemma_map_dom_finite(s: Seq<(Coord, PieceColor)>)
    ensures
        entries_map(s).dom().finite(),
    decreases s.len(),
{
    let dom = entries_map(s).dom();
    let img = Set::new(|p: (int, int)| exists|i: int| 0 <= i < s.len() && p == pt(s[i].0));
    assert forall|p: (int, int)| dom.contains(p) implies img.contains(p) by {
        let i = choose|i: int| entry_index(s, p, i);
        assert(entry_index(s, p, i));
    }
    assert forall|p: (int, int)| img.contains(p) implies dom.contains(p) by {
        let i = choose|i: int| 0 <= i < s.len() && p == pt(s[i].0);
        assert(entry_index(s, p, i));
    }
    assert(dom =~= img);
    lemma_points_finite(s);
}

proof fn lemma_points_finite(s: Seq<(Coord, PieceColor)>)
    ensures
        Set::new(|p: (int, int)| exists|i: int| 0 <= i < s.len() && p == pt(s[i].0)).finite(),
    decreases s.len(),
{
    let img = Set::new(|p: (int, int)| exists|i: int| 0 <= i < s.len() && p == pt(s[i].0));
    if s.len() == 0 {
        assert(img =~= Set::empty());
    } else {
        let t = s.drop_last();
        lemma_points_finite(t);
        let timg = Set::new(|p: (int, int)| exists|i: int| 0 <= i < t.len() && p == pt(t[i].0));
        assert(img =~= timg.insert(pt(s.last().0))) by {
            assert forall|p: (int, int)| img.contains(p) implies timg.insert(
                pt(s.last().0),
            ).contains(p) by {
                let i = choose|i: int| 0 <= i < s.len() && p == pt(s[i].0);
                if i < t.len() {
                    assert(t[i] == s[i]);
                }
            }
            assert forall|p: (int, int)| timg.insert(pt(s.last().0)).contains(p) implies img.contains(
                p,
            ) by {
                if p != pt(s.last().0) {
                    let i = choose|i: int| 0 <= i < t.len() && p == pt(t[i].0);
                    assert(s[i] == t[i]);
                }
            }
        }
    }
}

proof fn lemma_map_len(s: Seq<(Coord, PieceColor)>)
    requires
        keys_distinct(s),
    ensures
        entries_map(s).dom().len() == s.len(),
    decreases s.len(),
{
    if s.len() == 0 {
        assert(entries_map(s).dom() =~= Set::empty());
    } else {
        let t = s.drop_last();
        assert(keys_distinct(t));
        lemma_map_len(t);
        lemma_map_dom_finite(t);
        let last = s.last();
        assert(!entries_map(t).contains_key(pt(last.0))) by {
            if entries_map(t).contains_key(pt(last.0)) {
                let i = choose|i: int| entry_index(t, pt(last.0), i);
                assert(entry_index(t, pt(last.0), i));
                lemma_pt_injective(t[i].0, last.0);
                assert(s[i] == t[i]);
            }
        }
        assert(entries_map(s).dom() =~= entries_map(t).dom().insert(pt(last.0))) by {
            assert forall|p: (int, int)| entries_map(s).dom().contains(p) implies entries_map(
                t,
            ).dom().insert(pt(last.0)).contains(p) by {
                let i = choose|i: int| entry_index(s, p, i);
                assert(entry_index(s, p, i));
                if i < t.len() {
                    assert(entry_index(t, p, i));
                }
            }
            assert forall|p: (int, int)| entries_map(t).dom().insert(pt(last.0)).contains(
                p,
            ) implies entries_map(s).dom().contains(p) by {
                if p == pt(last.0) {
                    assert(entry_index(s, p, s.len() - 1));
                } else {
                    let i = choose|i: int| entry_index(t, p, i);
                    assert(entry_index(t, p, i));
                    assert(entry_index(s, p, i));
                }
            }
        }
    }
}

/// Two association lists agree at a point other than `key`.
pub open spec fn agree_off(
    s: Seq<(Coord, PieceColor)>,
    t: Seq<(Coord, PieceColor)>,
    key: (int, int),
    p: (int, int),
) -> bool {
    p != key ==> (entries_map(t).contains_key(p) == entries_map(s).contains_key(p) && (
    entries_map(s).contains_key(p) ==> entries_map(t)[p] == entries_map(s)[p]))
}

proof fn lemma_update_point(
    s: Seq<(Coord, PieceColor)>,
    i: int,
    cell: Coord,
    color: PieceColor,
    p: (int, int),
)
    requires
        keys_distinct(s),
        0 <= i < s.len(),
        s[i].0 == cell,
        keys_distinct(s.update(i, (cell, color))),
    ensures
        agree_off(s, s.update(i, (cell, color)), pt(cell), p),
{
    let t = s.update(i, (cell, color));
    if p != pt(cell) {
        if entries_map(s).contains_key(p) {
            let j = choose|j: int| entry_index(s, p, j);
            assert(entry_index(s, p, j));
            assert(j != i);
            assert(entry_index(t, p, j));
            lemma_entries_map_at(s, j);
            lemma_entries_map_at(t, j);
        }
        if entries_map(t).contains_key(p) {
            let j = choose|j: int| entry_index(t, p, j);
            assert(entry_index(t, p, j));
            assert(entry_index(s, p, j));
        }
    }
}

proof fn lemma_conclude_insert(
    s: Seq<(Coord, PieceColor)>,
    t: Seq<(Coord, PieceColor)>,
    cell: Coord,
    color: PieceColor,
)
    requires
        forall|p: (int, int)| agree_off(s, t, pt(cell), p),
        entries_map(t).contains_key(pt(cell)),
        entries_map(t)[pt(cell)] == color,
    ensures
        entries_map(t) == entries_map(s).insert(pt(cell), color),
{
    let m = entries_map(s).insert(pt(cell), color);
    assert forall|p: (int, int)| #[trigger] entries_map(t).contains_key(p) == m.contains_key(p) by {
        assert(agree_off(s, t, pt(cell), p));
    }
    assert forall|p: (int, int)| #[trigger] entries_map(t).contains_key(p) implies entries_map(t)[p]
        == m[p] by {
        assert(agree_off(s, t, pt(cell), p));
    }
    assert(entries_map(t) =~= m);
}

proof fn lemma_update_map(s: Seq<(Coord, PieceColor)>, i: int, cell: Coord, color: PieceColor)
    requires
        keys_distinct(s),
        0 <= i < s.len(),
        s[i].0 == cell,
        keys_distinct(s.update(i, (cell, color))),
    ensures
        entries_map(s.update(i, (cell, color))) == entries_map(s).insert(pt(cell), color),
{
    let t = s.update(i, (cell, color));
    lemma_entries_map_at(t, i);
    assert forall|p: (int, int)| agree_off(s, t, pt(cell), p) by {
        lemma_update_point(s, i, cell, color, p);
    }
    lemma_conclude_insert(s, t, cell, color);
}

proof fn lemma_push_point(s: Seq<(Coord, PieceColor)>, cell: Coord, color: PieceColor, p: (int, int))
    requires
        keys_distinct(s),
        keys_distinct(s.push((cell, color))),
    ensures
        agree_off(s, s.push((cell, color)), pt(cell), p),
{
    let t = s.push((cell, color));
    if p != pt(cell) {
        if entries_map(s).contains_key(p) {
            let j = choose|j: int| entry_index(s, p, j);
            assert(entry_index(s, p, j));
            assert(entry_index(t, p, j));
            lemma_entries_map_at(s, j);
            lemma_entries_map_at(t, j);
        }
        if entries_map(t).contains_key(p) {
            let j = choose|j: int| entry_index(t, p, j);
            assert(entry_index(t, p, j));
            if j < s.len() {
                assert(entry_index(s, p, j));
            }
        }
    }
}

proof fn lemma_push_map(s: Seq<(Coord, PieceColor)>, cell: Coord, color: PieceColor)
    requires
        keys_distinct(s),
        keys_distinct(s.push((cell, color))),
    ensures
        entries_map(s.push((cell, color))) == entries_map(s).insert(pt(cell), color),
{
    let t = s.push((cell, color));
    lemma_entries_map_at(t, s.len() as int);
    assert forall|p: (int, int)| agree_off(s, t, pt(cell), p) by {
        lemma_push_point(s, cell, color, p);
    }
    lemma_conclude_insert(s, t, cell, color);
}

proof fn lemma_remove_point(s: Seq<(Coord, PieceColor)>, i: int, p: (int, int))
    requires
        keys_distinct(s),
        0 <= i < s.len(),
        keys_distinct(s.remove(i)),
    ensures
        agree_off(s, s.remove(i), pt(s[i].0), p),
{
    let t = s.remove(i);
    if p != pt(s[i].0) {
        if entries_map(s).contains_key(p) {
            let j = choose|j: int| entry_index(s, p, j);
            assert(entry_index(s, p, j));
            assert(j != i);
            let k = if j < i {
                j
            } else {
                j - 1
            };
            assert(t[k] == s[j]);
            assert(entry_index(t, p, k));
            lemma_entries_map_at(s, j);
            lemma_entries_map_at(t, k);
        }
        if entries_map(t).contains_key(p) {
            let k = choose|k: int| entry_index(t, p, k);
            assert(entry_index(t, p, k));
            if k < i {
                assert(entry_index(s, p, k));
            } else {
                assert(entry_index(s, p, k + 1));
            }
        }
    }
}

proof fn lemma_remove_map(s: Seq<(Coord, PieceColor)>, i: int)
    requires
        keys_distinct(s),
        0 <= i < s.len(),
        keys_distinct(s.remove(i)),
    ensures
        entries_map(s.remove(i)) == entries_map(s).remove(pt(s[i].0)),
{
    let t = s.remove(i);
    let key = pt(s[i].0);
    assert forall|p: (int, int)| agree_off(s, t, key, p) by {
        lemma_remove_point(s, i, p);
    }
    assert(!entries_map(t).contains_key(key)) by {
        if entries_map(t).contains_key(key) {
            let k = choose|k: int| entry_index(t, key, k);
            assert(entry_index(t, key, k));
            let j = if k < i {
                k
            } else {
                k + 1
            };
            assert(t[k] == s[j]);
            lemma_pt_injective(s[j].0, s[i].0);
        }
    }
    let m = entries_map(s).remove(key);
    assert forall|p: (int, int)| #[trigger] entries_map(t).contains_key(p) == m.contains_key(p) by {
        assert(agree_off(s, t, key, p));
    }
    assert forall|p: (int, int)| #[trigger] entries_map(t).contains_key(p) implies entries_map(t)[p]
        == m[p] by {
        assert(agree_off(s, t, key, p));
    }
    assert(entries_map(t) =~= m);
}

/// A set of cells, such as the disabled cells of a board.
pub struct CellSet {
    items: Vec<Coord>,
}

pub open spec fn points_of(s: Seq<Coord>) -> Set<(int, int)> {
    Set::new(|p: (int, int)| exists|i: int| 0 <= i < s.len() && pt(s[i]) == p)
}

impl View for CellSet {
    type V = Set<(int, int)>;

    closed spec fn view(&self) -> Set<(int, int)> {
        points_of(self.items@)
    }
}

impl CellSet {
    #[verifier::type_invariant]
    closed spec fn inv(self) -> bool {
        self.items@.no_duplicates()
    }

    pub fn new() -> (s: CellSet)
        ensures
            s@ == Set::<(int, int)>::empty(),
    {
        let s = CellSet { items: Vec::new() };
        assert(s@ =~= Set::<(int, int)>::empty());
        s
    }

    /// Number of cells in the set.
    pub fn len(&self) -> (n: usize)
        ensures
            n as nat == self@.len(),
            self@.finite(),
    {
        proof {
            use_type_invariant(self);
            lemma_points_len(self.items@);
        }
        self.items.len()
    }

    /// Whether a point given as 64-bit integers is in the set.
    pub fn contains_point(&self, px: i64, py: i64) -> (r: bool)
        ensures
            r == self@.contains((px as int, py as int)),
    {
        let mut i: usize = 0;
        while i < self.items.len()
            invariant
                i <= self.items@.len(),
                forall|j: int| 0 <= j < i ==> pt(#[trigger] self.items@[j]) != (px as int, py as int),
            decreases self.items@.len() - i,
        {
            let c = self.items[i];
            if c.x as i64 == px && c.y as i64 == py {
                assert(pt(self.items@[i as int]) == (px as int, py as int));
                return true;
            }
            i = i + 1;
        }
        false
    }

    /// Whether a cell is in the set.
    pub fn contains(&self, cell: Coord) -> (r: bool)
        ensures
            r == self@.contains(pt(cell)),
    {
        self.contains_point(cell.x as i64, cell.y as i64)
    }

    /// Add a cell to the set.
    pub fn insert(&mut self, cell: Coord)
        ensures
            final(self)@ == old(self)@.insert(pt(cell)),
    {
        proof {
            use_type_invariant(&*self);
        }
        if !self.contains(cell) {
            let ghost s = self.items@;
            let mut items: Vec<Coord> = Vec::new();
            std::mem::swap(&mut items, &mut self.items);
            items.push(cell);
            proof {
                assert(items@ == s.push(cell));
                assert forall|a: int, b: int|
                    0 <= a < items@.len() && 0 <= b < items@.len() && a != b implies items@[a]
                    != items@[b] by {
                    if a == s.len() {
                        assert(pt(s[b]) != pt(cell));
                    } else if b == s.len() {
                        assert(pt(s[a]) != pt(cell));
                    }
                }
                assert(points_of(items@) =~= points_of(s).insert(pt(cell))) by {
                    assert forall|p: (int, int)| points_of(items@).contains(p) implies points_of(
                        s,
                    ).insert(pt(cell)).contains(p) by {
                        let i = choose|i: int| 0 <= i < items@.len() && pt(items@[i]) == p;
                        if i < s.len() {
                            assert(items@[i] == s[i]);
                        }
                    }
                    assert forall|p: (int, int)| points_of(s).insert(pt(cell)).contains(
                        p,
                    ) implies points_of(items@).contains(p) by {
                        if p == pt(cell) {
                            assert(pt(items@[s.len() as int]) == p);
                        } else {
                            let i = choose|i: int| 0 <= i < s.len() && pt(s[i]) == p;
                            assert(items@[i] == s[i]);
                        }
                    }
                }
            }
            self.items = items;
        } else {
            assert(old(self)@.insert(pt(cell)) =~= old(self)@);
        }
    }

    /// The cells of the set, each once.
    pub fn to_vec(&self) -> (r: Vec<Coord>)
        ensures
            r@.no_duplicates(),
            points_of(r@) == self@,
    {
        proof {
            use_type_invariant(self);
        }
        let mut out: Vec<Coord> = Vec::new();
        let mut i: usize = 0;
        while i < self.items.len()
            invariant
                i <= self.items@.len(),
                out@ == self.items@.subrange(0, i as int),
            decreases self.items@.len() - i,
        {
            out.push(self.items[i]);
            i = i + 1;
        }
        proof {
            assert(out@ =~= self.items@);
        }
        out
    }
}

proof fn lemma_points_len(s: Seq<Coord>)
    requires
        s.no_duplicates(),
    ensures
        points_of(s).finite(),
        points_of(s).len() == s.len(),
    decreases s.len(),
{
    if s.len() == 0 {
        assert(points_of(s) =~= Set::empty());
    } else {
        let t = s.drop_last();
        assert(t.no_duplicates()) by {
            assert forall|a: int, b: int|
                0 <= a < t.len() && 0 <= b < t.len() && a != b implies t[a] != t[b] by {
                assert(t[a] == s[a] && t[b] == s[b]);
            }
        }
        lemma_points_len(t);
        let last = s.last();
        assert(!points_of(t).contains(pt(last))) by {
            if points_of(t).contains(pt(last)) {
                let i = choose|i: int| 0 <= i < t.len() && pt(t[i]) == pt(last);
                lemma_pt_injective(t[i], last);
                assert(s[i] == t[i]);
            }
        }
        assert(points_of(s) =~= points_of(t).insert(pt(last))) by {
            assert forall|p: (int, int)| points_of(s).contains(p) implies points_of(t).insert(
                pt(last),
            ).contains(p) by {
                let i = choose|i: int| 0 <= i < s.len() && pt(s[i]) == p;
                if i < t.len() {
                    assert(t[i] == s[i]);
                }
            }
            assert forall|p: (int, int)| points_of(t).insert(pt(last)).contains(p) implies points_of(
                s,
            ).contains(p) by {
                if p == pt(last) {
                    assert(pt(s[s.len() - 1]) == p);
                } else {
                    let i = choose|i: int| 0 <= i < t.len() && pt(t[i]) == p;
                    assert(s[i] == t[i]);
                }
            }
        }
    }
}

} // verus!
