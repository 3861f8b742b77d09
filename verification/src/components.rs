use crate::error::Error;
use crate::text::{
    all_ascii, as_text, canonical_digits, decimal, digits_value, lemma_as_text_concat,
    lemma_decimal_value, lemma_text_bytes, lemma_value_decimal, parse_unsigned, push_decimal,
    unsigned_of,
};
use vstd::prelude::*;
use vstd::string::*;

verus! {

/// The id that `name` stands for under the class prefix `prefix`: the name is the prefix
/// followed by the decimal digits of a positive number, and the id is one less than it.
pub open spec fn decode_name(prefix: Seq<u8>, name: Seq<u8>) -> Result<usize, Error> {
    if name.len() >= prefix.len() && name.subrange(0, prefix.len() as int) == prefix {
        match unsigned_of(name.subrange(prefix.len() as int, name.len() as int)) {
            Some(n) => if n >= 1 {
                Ok((n - 1) as usize)
            } else {
                Err(Error::MalformedName)
            },
            None => Err(Error::MalformedName),
        }
    } else {
        Err(Error::MalformedName)
    }
}

/// The name of `id` under the class prefix `prefix`.
pub open spec fn encode_name(prefix: Seq<u8>, id: usize) -> Seq<u8> {
    prefix + decimal((id + 1) as nat)
}

/// A name in the form that `encode_name` produces: the prefix, then the canonical decimal
/// digits of a positive number that fits in `usize`.
pub open spec fn well_formed_name(prefix: Seq<u8>, name: Seq<u8>) -> bool {
    &&& name.len() > prefix.len()
    &&& name.subrange(0, prefix.len() as int) == prefix
    &&& canonical_digits(name.subrange(prefix.len() as int, name.len() as int))
    &&& name[prefix.len() as int] != 48
    &&& digits_value(name.subrange(prefix.len() as int, name.len() as int)) <= usize::MAX
}

/// Decoding the name of an id gives the id back.
pub proof fn lemma_decode_encode(prefix: Seq<u8>, id: usize)
    requires
        id < usize::MAX,
    ensures
        decode_name(prefix, encode_name(prefix, id)) == Ok::<usize, Error>(id),
        well_formed_name(prefix, encode_name(prefix, id)),
{
    let digits = decimal((id + 1) as nat);
    let name = encode_name(prefix, id);
    lemma_decimal_value((id + 1) as nat);
    assert(name.subrange(0, prefix.len() as int) =~= prefix);
    assert(name.subrange(prefix.len() as int, name.len() as int) =~= digits);
    assert(name[prefix.len() as int] == digits[0]);
}

/// Encoding the id of a well-formed name gives the name back.
pub proof fn lemma_encode_decode(prefix: Seq<u8>, name: Seq<u8>)
    requires
        well_formed_name(prefix, name),
    ensures
        decode_name(prefix, name) is Ok,
        decode_name(prefix, name)->Ok_0 < usize::MAX,
        encode_name(prefix, decode_name(prefix, name)->Ok_0) == name,
{
    let digits = name.subrange(prefix.len() as int, name.len() as int);
    assert(digits[0] == name[prefix.len() as int]);
    lemma_value_decimal(digits);
    assert(name =~= prefix + digits);
}

/// Reads the name `input[start..end]` under the class prefix `prefix`.
pub fn decode_bytes(prefix: &str, input: &[u8], start: usize, end: usize) -> (res: Result<
    usize,
    Error,
>)
    requires
        start <= end <= input@.len(),
    ensures
        res == decode_name(prefix.spec_bytes(), input@.subrange(start as int, end as int)),
{
    let p = prefix.as_bytes();
    let ghost name = input@.subrange(start as int, end as int);
    if end - start < p.len() {
        return Err(Error::MalformedName);
    }
    let mut i: usize = 0;
    while i < p.len()
        invariant
            start <= end <= input@.len(),
            p@.len() <= end - start,
            p@ == prefix.spec_bytes(),
            name == input@.subrange(start as int, end as int),
            0 <= i <= p@.len(),
            name.subrange(0, i as int) == p@.subrange(0, i as int),
        decreases p@.len() - i,
    {
        if input[start + i] != p[i] {
            proof {
                assert(name[i as int] == input@[start + i]);
                assert(name.subrange(0, p@.len() as int)[i as int] == name[i as int]);
                assert(name.subrange(0, p@.len() as int) != p@);
            }
            return Err(Error::MalformedName);
        }
        proof {
            assert(name.subrange(0, i + 1) =~= name.subrange(0, i as int).push(name[i as int]));
            assert(p@.subrange(0, i + 1) =~= p@.subrange(0, i as int).push(p@[i as int]));
        }
        i += 1;
    }
    proof {
        assert(p@.subrange(0, p@.len() as int) =~= p@);
        assert(name.subrange(p@.len() as int, name.len() as int) =~= input@.subrange(
            start + p@.len(),
            end as int,
        ));
    }
    match parse_unsigned(input, start + p.len(), end) {
        Some(n) => if n >= 1 {
            Ok(n - 1)
        } else {
            Err(Error::MalformedName)
        },
        None => Err(Error::MalformedName),
    }
}

/// FactoryID provides three methods.
/// Users only need to implement `prefix`
/// which is a `&'static str` and unique to the type.
/// `from_str` generates an instance's id,
/// `from_num` generates an instance's name.
/// Both are automatically implemented provided that `prefix` is implemented.
pub trait FactoryID {
    /// The bytes of the prefix.
    spec fn spec_prefix() -> Seq<u8>;

    /// The prefix a type has in input file.
    /// The name of an instance is uniquely determined by its prefix and id
    fn prefix() -> (p: &'static str)
        ensures
            all_ascii(Self::spec_prefix()),
            p@ == as_text(Self::spec_prefix()),
    ;

    /// Converts from &str to usize.
    fn from_str(name: &str) -> (res: Result<usize, Error>)
        ensures
            res == decode_name(Self::spec_prefix(), name.spec_bytes()),
    {
        let p = Self::prefix();
        proof {
            lemma_text_bytes(p, Self::spec_prefix());
        }
        let bytes = name.as_bytes();
        proof {
            assert(bytes@.subrange(0, bytes@.len() as int) =~= bytes@);
        }
        decode_bytes(p, bytes, 0, bytes.len())
    }

    /// Converts from usize to String.
    fn from_num(id: usize) -> (res: Result<String, Error>)
        ensures
            id < usize::MAX ==> res is Ok && res->Ok_0@ == as_text(
                encode_name(Self::spec_prefix(), id),
            ),
            id == usize::MAX ==> res == Err::<String, Error>(Error::MalformedName),
    {
        if id == usize::MAX {
            return Err(Error::MalformedName);
        }
        let mut name = Self::prefix().to_owned();
        push_decimal(&mut name, id + 1);
        proof {
            lemma_as_text_concat(Self::spec_prefix(), decimal((id + 1) as nat));
        }
        Ok(name)
    }
}

/// Appends the name of `id` under `prefix` to `out`; `id` must leave room for the offset of one.
pub fn push_name(out: &mut String, prefix: &str, id: usize)
    requires
        id < usize::MAX,
    ensures
        final(out)@ == old(out)@ + prefix@ + as_text(decimal((id + 1) as nat)),
{
    out.append(prefix);
    push_decimal(out, id + 1);
}

/// Directions of a layer
#[derive(Clone, Copy, Debug, Eq, Hash, PartialEq, Structural)]
pub enum Direction {
    Horizontal,
    Vertical,
}

/// There are different conflict types
#[derive(Clone, Copy, Debug, Eq, Hash, PartialEq, Structural)]
pub enum ConflictType {
    AdjHGGrid,
    SameGGrid,
}

/// Whether a cell is movable
#[derive(Clone, Copy, Debug, Eq, Hash, PartialEq, Structural)]
pub enum CellType {
    Movable,
    Fixed,
}

/// Towards a direction
#[derive(Clone, Copy, Debug, Eq, Hash, PartialEq, Structural)]
pub enum Towards {
    Up,
    Down,
    Left,
    Right,
    Top,
    Bottom,
}

/// A 2-dimension tuple representing a Pair.
#[derive(Clone, Copy, Debug, Default, Eq, Hash, PartialEq)]
pub struct Pair<T>(pub T, pub T) where T: Copy;

/// A 3-dimension tuple representing a Point.
#[derive(Clone, Copy, Debug, Default, Eq, Hash, PartialEq)]
pub struct Point<T>(pub T, pub T, pub T) where T: Copy;

/// A source point and a target point representing a Route.
#[derive(Clone, Copy, Debug, Default, Eq, Hash, PartialEq)]
pub struct Route<T>(pub Point<T>, pub Point<T>) where T: Copy;

/// Some information about a Layer.
#[derive(Debug)]
pub struct Layer {
    /// layer id (starts from 0)
    pub id: usize,
    /// horizontal or vertical
    pub direction: Direction,
    /// dimensions
    pub dim: Pair<usize>,
    /// all grids' capacity
    pub capacity: Vec<usize>,
}

/// Some information about a MasterPin.
#[derive(Clone, Copy, Debug, Eq, Hash, PartialEq, Structural)]
pub struct MasterPin {
    /// id of the pin
    pub id: usize,
    /// layer on which the pin is on
    pub layer: usize,
}

/// Some information about a Blockage.
#[derive(Clone, Copy, Debug, Eq, Hash, PartialEq, Structural)]
pub struct Blockage {
    /// id of the blockage
    pub id: usize,
    /// layer on which the blockage is on
    pub layer: usize,
    /// extra demand the blockage will cost
    pub demand: usize,
}

/// Some information about a MasterCell.
#[derive(Debug)]
pub struct MasterCell {
    /// id of cell
    pub id: usize,
    /// the pins, no two with the same id
    pub pins: Vec<MasterPin>,
    /// the blockages, no two with the same id
    pub blkgs: Vec<Blockage>,
}

/// Some information about a Conflict,
/// which happens when certain types of MasterCells are too close for confort.
#[derive(Clone, Copy, Debug, Eq, Hash, PartialEq, Structural)]
pub struct Conflict {
    /// adjHGGrid or sameGGrid
    pub kind: ConflictType,
    /// other id
    pub id: usize,
    /// on which layer
    pub layer: usize,
    /// by how much
    pub demand: usize,
}

/// Some information about a Cell
#[derive(Debug)]
pub struct Cell {
    /// id of the cell
    pub id: usize,
    /// if the cell can be moved
    pub movable: CellType,
    /// whether the cell has moved
    pub moved: bool,
    /// position
    pub position: Pair<usize>,
    /// the global indices of the cell's pins, one per pin of its master cell
    pub pins: Vec<usize>,
}

/// Pointer points to the nearby node.
#[derive(Clone, Copy, Debug, Eq, Hash, PartialEq, Structural)]
pub struct Pointer {
    /// nearby node index
    pub index: usize,
    /// nearby node height
    pub height: usize,
}

/// A node representing a position that's either an endpoint, an intersection, or a turningpoint.
#[derive(Clone, Copy, Debug)]
pub struct PosNode {
    /// corresponding to pin id, None represents a virtual node.
    pub id: Option<usize>,
    /// positions
    pub position: Pair<usize>,
    /// -x direction
    pub left: Option<Pointer>,
    /// +x direction
    pub right: Option<Pointer>,
    /// -y direction
    pub down: Option<Pointer>,
    /// +y direction
    pub up: Option<Pointer>,
    /// -z direction: the node itself at the lowest layer that a vertical segment here reaches
    pub bottom: Option<Pointer>,
    /// +z direction: the node itself at the highest layer that a vertical segment here reaches
    pub top: Option<Pointer>,
}

impl<T> Pair<T> where T: Copy {
    /// The first coordinate: the row.
    pub fn x(&self) -> (x: T)
        ensures
            x == self.0,
    {
        self.0
    }

    /// The second coordinate: the column.
    pub fn y(&self) -> (y: T)
        ensures
            y == self.1,
    {
        self.1
    }

    /// The point over this position on layer `lay`.
    pub fn with(&self, lay: T) -> (p: Point<T>)
        ensures
            p == Point(self.0, self.1, lay),
    {
        Point(self.0, self.1, lay)
    }
}

impl Pair<usize> {
    /// Number of grid cells of a grid with these dimensions.
    pub fn size(&self) -> (n: usize)
        requires
            self.0 * self.1 <= usize::MAX,
        ensures
            n == self.0 * self.1,
    {
        // x: rows, y: columns
        self.0 * self.1
    }

    /// `row col` in decimal.
    pub open spec fn text(self) -> Seq<char> {
        as_text(decimal(self.0 as nat)) + " "@ + as_text(decimal(self.1 as nat))
    }

    /// Appends `row col` to `out`.
    pub fn push_text(&self, out: &mut String)
        ensures
            final(out)@ == old(out)@ + self.text(),
    {
        push_decimal(out, self.0);
        out.append(" ");
        push_decimal(out, self.1);
        proof {
            assert(final(out)@ =~= old(out)@ + self.text());
        }
    }

    /// The pair as it is written in a file.
    pub fn to_text(&self) -> (s: String)
        ensures
            s@ == self.text(),
    {
        let mut s = String::new();
        self.push_text(&mut s);
        proof {
            assert(s@ =~= self.text());
        }
        s
    }
}

impl<T> Point<T> where T: Copy {
    /// The point `(x, y, z)`.
    pub fn new(x: T, y: T, z: T) -> (p: Self)
        ensures
            p == Point(x, y, z),
    {
        Point(x, y, z)
    }

    /// The row of the point.
    pub fn row(&self) -> (r: T)
        ensures
            r == self.0,
    {
        self.0
    }

    /// The column of the point.
    pub fn col(&self) -> (c: T)
        ensures
            c == self.1,
    {
        self.1
    }

    /// The layer of the point.
    pub fn lay(&self) -> (l: T)
        ensures
            l == self.2,
    {
        self.2
    }

    /// The planar position under the point.
    pub fn flatten(&self) -> (p: Pair<T>)
        ensures
            p == Pair(self.0, self.1),
    {
        Pair(self.0, self.1)
    }
}

impl Point<usize> {
    /// `row col lay` in decimal.
    pub open spec fn text(self) -> Seq<char> {
        as_text(decimal(self.0 as nat)) + " "@ + as_text(decimal(self.1 as nat)) + " "@ + as_text(
            decimal(self.2 as nat),
        )
    }

    /// Appends `row col lay` to `out`.
    pub fn push_text(&self, out: &mut String)
        ensures
            final(out)@ == old(out)@ + self.text(),
    {
        push_decimal(out, self.0);
        out.append(" ");
        push_decimal(out, self.1);
        out.append(" ");
        push_decimal(out, self.2);
        proof {
            assert(final(out)@ =~= old(out)@ + self.text());
        }
    }

    /// The point as it is written in a file.
    pub fn to_text(&self) -> (s: String)
        ensures
            s@ == self.text(),
    {
        let mut s = String::new();
        self.push_text(&mut s);
        proof {
            assert(s@ =~= self.text());
        }
        s
    }
}

impl<T> Route<T> where T: Copy {
    /// The route from `a` to `b`.
    pub fn new(a: Point<T>, b: Point<T>) -> (r: Self)
        ensures
            r == Route(a, b),
    {
        Route(a, b)
    }

    /// The route between the points `(ax, ay, az)` and `(bx, by, bz)`.
    pub fn raw(ax: T, ay: T, az: T, bx: T, by: T, bz: T) -> (r: Self)
        ensures
            r == Route(Point(ax, ay, az), Point(bx, by, bz)),
    {
        let pa = Point(ax, ay, az);
        let pb = Point(bx, by, bz);
        Route(pa, pb)
    }

    /// The point where the route starts.
    pub fn source(&self) -> (p: Point<T>)
        ensures
            p == self.0,
    {
        self.0
    }

    /// The point where the route ends.
    pub fn target(&self) -> (p: Point<T>)
        ensures
            p == self.1,
    {
        self.1
    }
}

impl Towards {
    /// The opposite direction.
    pub open spec fn opposite(self) -> Towards {
        match self {
            Towards::Up => Towards::Down,
            Towards::Down => Towards::Up,
            Towards::Left => Towards::Right,
            Towards::Right => Towards::Left,
            Towards::Top => Towards::Bottom,
            Towards::Bottom => Towards::Top,
        }
    }

    /// One of the four directions within a layer.
    pub open spec fn planar(self) -> bool {
        self != Towards::Top && self != Towards::Bottom
    }

    /// Whether this is one of the four directions within a layer.
    pub fn is_planar(self) -> (b: bool)
        ensures
            b == self.planar(),
    {
        match self {
            Towards::Top | Towards::Bottom => false,
            _ => true,
        }
    }

    /// Taking the opposite twice gives the direction back, and never the direction itself.
    pub proof fn lemma_opposite(self)
        ensures
            self.opposite().opposite() == self,
            self.opposite() != self,
            self.opposite().planar() == self.planar(),
    {
    }
}

impl core::ops::Neg for Towards {
    type Output = Self;

    /// Get the opposite direction.
    fn neg(self) -> (res: Self) {
        match self {
            Towards::Up => Towards::Down,
            Towards::Down => Towards::Up,
            Towards::Left => Towards::Right,
            Towards::Right => Towards::Left,
            Towards::Top => Towards::Bottom,
            Towards::Bottom => Towards::Top,
        }
    }
}

impl vstd::std_specs::ops::NegSpecImpl for Towards {
    open spec fn obeys_neg_spec() -> bool {
        true
    }

    open spec fn neg_req(self) -> bool {
        true
    }

    open spec fn neg_spec(self) -> Towards {
        self.opposite()
    }
}

impl Route<usize> {
    /// Exactly one of the three coordinates differs between source and target.
    pub open spec fn axis_aligned(self) -> bool {
        ||| (self.0.0 != self.1.0 && self.0.1 == self.1.1 && self.0.2 == self.1.2)
        ||| (self.0.0 == self.1.0 && self.0.1 != self.1.1 && self.0.2 == self.1.2)
        ||| (self.0.0 == self.1.0 && self.0.1 == self.1.1 && self.0.2 != self.1.2)
    }

    /// Whether exactly one of the three coordinates differs between source and target.
    pub fn is_axis_aligned(&self) -> (b: bool)
        ensures
            b == self.axis_aligned(),
    {
        let dr = self.0.0 != self.1.0;
        let dc = self.0.1 != self.1.1;
        let dl = self.0.2 != self.1.2;
        (dr && !dc && !dl) || (!dr && dc && !dl) || (!dr && !dc && dl)
    }

    /// The difference between `target` and `source`, coordinate by coordinate.
    pub open spec fn spec_vector(self) -> (int, int, int) {
        (self.1.0 - self.0.0, self.1.1 - self.0.1, self.1.2 - self.0.2)
    }

    /// Calculates the difference between `source` and `target`
    pub fn vector(&self) -> (v: Point<isize>)
        requires
            self.0.0 <= isize::MAX,
            self.0.1 <= isize::MAX,
            self.0.2 <= isize::MAX,
            self.1.0 <= isize::MAX,
            self.1.1 <= isize::MAX,
            self.1.2 <= isize::MAX,
        ensures
            (v.0 as int, v.1 as int, v.2 as int) == self.spec_vector(),
    {
        Point(
            self.1.0 as isize - self.0.0 as isize,
            self.1.1 as isize - self.0.1 as isize,
            self.1.2 as isize - self.0.2 as isize,
        )
    }

    /// The direction from source to target: `Left`/`Right` along rows, `Down`/`Up` along
    /// columns, `Bottom`/`Top` along layers.
    pub open spec fn spec_towards(self) -> Towards {
        let (row, col, lay) = self.spec_vector();
        if row != 0 {
            if row > 0 {
                Towards::Right
            } else {
                Towards::Left
            }
        } else if col != 0 {
            if col > 0 {
                Towards::Up
            } else {
                Towards::Down
            }
        } else if lay > 0 {
            Towards::Top
        } else {
            Towards::Bottom
        }
    }

    /// Categorizes the result of `vector`.
    pub fn towards(&self) -> (t: Towards)
        requires
            self.axis_aligned(),
        ensures
            t == self.spec_towards(),
    {
        if self.1.0 > self.0.0 {
            Towards::Right
        } else if self.1.0 < self.0.0 {
            Towards::Left
        } else if self.1.1 > self.0.1 {
            Towards::Up
        } else if self.1.1 < self.0.1 {
            Towards::Down
        } else if self.1.2 > self.0.2 {
            Towards::Top
        } else {
            Towards::Bottom
        }
    }

    /// `source target`, each as `row col lay`.
    pub open spec fn text(self) -> Seq<char> {
        self.0.text() + " "@ + self.1.text()
    }

    /// Appends `source target` to `out`.
    pub fn push_text(&self, out: &mut String)
        ensures
            final(out)@ == old(out)@ + self.text(),
    {
        self.0.push_text(out);
        out.append(" ");
        self.1.push_text(out);
        proof {
            assert(final(out)@ =~= old(out)@ + self.text());
        }
    }

    /// The route as it is written in a file.
    pub fn to_text(&self) -> (s: String)
        ensures
            s@ == self.text(),
    {
        let mut s = String::new();
        self.push_text(&mut s);
        proof {
            assert(s@ =~= self.text());
        }
        s
    }
}

impl Layer {
    /// The capacity vector holds one entry per grid cell, row by row.
    pub open spec fn wf(&self) -> bool {
        self.capacity@.len() == self.dim.0 * self.dim.1
    }

    /// The capacity of grid cell `(row, col)`, where the cell lies in the grid and the
    /// capacity vector reaches that far.
    pub open spec fn spec_capacity(&self, row: int, col: int) -> Option<usize> {
        if 0 <= row < self.dim.0 && 0 <= col < self.dim.1 && row * self.dim.1 + col
            < self.capacity@.len() {
            Some(self.capacity@[row * self.dim.1 + col])
        } else {
            None
        }
    }

    /// Row-major indices of cells inside the grid stay inside the capacity vector.
    pub proof fn lemma_index(&self, row: int, col: int)
        requires
            self.wf(),
            0 <= row < self.dim.0,
            0 <= col < self.dim.1,
        ensures
            0 <= row * self.dim.1 <= row * self.dim.1 + col < self.capacity@.len(),
    {
        let w = self.dim.1 as int;
        let h = self.dim.0 as int;
        assert(row * w + col < h * w) by (nonlinear_arith)
            requires
                0 <= row < h,
                0 <= col < w,
        ;
        assert(0 <= row * w) by (nonlinear_arith)
            requires
                0 <= row,
                0 <= w,
        ;
    }

    /// The index of grid cell `(row, col)` in the capacity vector, where the cell lies in
    /// the grid and the vector reaches that far.
    pub fn cell_index(&self, row: usize, col: usize) -> (idx: Option<usize>)
        ensures
            match idx {
                Some(i) => row < self.dim.0 && col < self.dim.1 && i == row * self.dim.1 + col
                    && i < self.capacity@.len(),
                None => !(row < self.dim.0 && col < self.dim.1 && row * self.dim.1 + col
                    < self.capacity@.len()),
            },
    {
        let len = self.capacity.len();
        if row >= self.dim.0 || col >= self.dim.1 {
            return None;
        }
        match row.checked_mul(self.dim.1) {
            Some(base) => match base.checked_add(col) {
                Some(i) => if i < len {
                    Some(i)
                } else {
                    None
                },
                None => None,
            },
            None => {
                proof {
                    assert(row * self.dim.1 + col >= row * self.dim.1) by (nonlinear_arith)
                        requires
                            col >= 0,
                    ;
                }
                None
            },
        }
    }

    /// The capacity of grid cell `(row, col)`; `None` outside the grid.
    pub fn get_capacity(&self, row: usize, col: usize) -> (cap: Option<&usize>)
        ensures
            match cap {
                Some(c) => self.spec_capacity(row as int, col as int) == Some(*c),
                None => self.spec_capacity(row as int, col as int) is None,
            },
    {
        match self.cell_index(row, col) {
            Some(i) => Some(&self.capacity[i]),
            None => None,
        }
    }

    /// The capacity of grid cell `(row, col)`, to be changed in place; `None` outside the grid.
    pub fn get_capacity_mut(&mut self, row: usize, col: usize) -> (cap: Option<&mut usize>)
        ensures
            final(self).id == old(self).id,
            final(self).direction == old(self).direction,
            final(self).dim == old(self).dim,
            final(self).capacity@.len() == old(self).capacity@.len(),
            old(self).spec_capacity(row as int, col as int) is Some ==> cap is Some && Some(
                *(cap->0),
            ) == old(self).spec_capacity(row as int, col as int) && final(self).capacity@ == old(self).capacity@.update(row * old(self).dim.1 + col, *final(cap->0)),
            old(self).spec_capacity(row as int, col as int) is None ==> cap is None && final(self).capacity@ == old(self).capacity@,
    {
        match self.cell_index(row, col) {
            Some(i) => Some(&mut self.capacity[i]),
            None => None,
        }
    }
}

impl FactoryID for Layer {
    open spec fn spec_prefix() -> Seq<u8> {
        seq![77u8]
    }

    fn prefix() -> (p: &'static str) {
        let p = "M";
        proof {
            reveal_strlit("M");
            assert(p@ =~= as_text(seq![77u8]));
        }
        p
    }
}

impl FactoryID for MasterPin {
    open spec fn spec_prefix() -> Seq<u8> {
        seq![80u8]
    }

    fn prefix() -> (p: &'static str) {
        let p = "P";
        proof {
            reveal_strlit("P");
            assert(p@ =~= as_text(seq![80u8]));
        }
        p
    }
}

impl FactoryID for Blockage {
    open spec fn spec_prefix() -> Seq<u8> {
        seq![66u8]
    }

    fn prefix() -> (p: &'static str) {
        let p = "B";
        proof {
            reveal_strlit("B");
            assert(p@ =~= as_text(seq![66u8]));
        }
        p
    }
}

impl FactoryID for MasterCell {
    open spec fn spec_prefix() -> Seq<u8> {
        seq![77u8, 67u8]
    }

    fn prefix() -> (p: &'static str) {
        let p = "MC";
        proof {
            reveal_strlit("MC");
            assert(p@ =~= as_text(seq![77u8, 67u8]));
        }
        p
    }
}

impl FactoryID for Cell {
    open spec fn spec_prefix() -> Seq<u8> {
        seq![67u8]
    }

    fn prefix() -> (p: &'static str) {
        let p = "C";
        proof {
            reveal_strlit("C");
            assert(p@ =~= as_text(seq![67u8]));
        }
        p
    }
}

impl Cell {
    /// `CellInst <name> <row> <col>`.
    pub open spec fn text(&self) -> Seq<char> {
        "CellInst "@ + as_text(encode_name(Cell::spec_prefix(), self.id)) + " "@
            + self.position.text()
    }

    /// Appends `CellInst <name> <row> <col>` to `out`.
    pub fn push_text(&self, out: &mut String)
        requires
            self.id < usize::MAX,
        ensures
            final(out)@ == old(out)@ + self.text(),
    {
        out.append("CellInst ");
        push_name(out, Cell::prefix(), self.id);
        out.append(" ");
        self.position.push_text(out);
        proof {
            lemma_as_text_concat(Cell::spec_prefix(), decimal((self.id + 1) as nat));
            assert(final(out)@ =~= old(out)@ + self.text());
        }
    }

    /// The cell as it is written in the list of moved cells; `None` for an id without a name.
    pub fn to_text(&self) -> (s: Option<String>)
        ensures
            self.id < usize::MAX ==> s is Some && s->0@ == self.text(),
            self.id == usize::MAX ==> s is None,
    {
        if self.id == usize::MAX {
            return None;
        }
        let mut s = String::new();
        self.push_text(&mut s);
        proof {
            assert(s@ =~= self.text());
        }
        Some(s)
    }
}

/// The span `acc` widened to take in the height of `slot`, where there is a pointer.
pub open spec fn widen(acc: (usize, usize), slot: Option<Pointer>) -> (usize, usize) {
    match slot {
        Some(p) => (
            if p.height < acc.0 {
                p.height
            } else {
                acc.0
            },
            if p.height > acc.1 {
                p.height
            } else {
                acc.1
            },
        ),
        None => acc,
    }
}

/// `widen` in executable form.
pub fn widen_span(acc: (usize, usize), slot: Option<Pointer>) -> (res: (usize, usize))
    ensures
        res == widen(acc, slot),
{
    match slot {
        Some(ptr) => (
            if ptr.height < acc.0 {
                ptr.height
            } else {
                acc.0
            },
            if ptr.height > acc.1 {
                ptr.height
            } else {
                acc.1
            },
        ),
        None => acc,
    }
}

impl PosNode {
    /// The pointer that the node holds in direction `towards`.
    pub open spec fn slot(self, towards: Towards) -> Option<Pointer> {
        match towards {
            Towards::Up => self.up,
            Towards::Down => self.down,
            Towards::Left => self.left,
            Towards::Right => self.right,
            Towards::Top => self.top,
            Towards::Bottom => self.bottom,
        }
    }

    /// The lowest and the highest layer among the node's pointers, vertical ones included;
    /// `(usize::MAX, usize::MIN)` for a node without any.
    pub open spec fn spec_span(self) -> (usize, usize) {
        widen(
            widen(
                widen(
                    widen(widen(widen((usize::MAX, usize::MIN), self.up), self.down), self.left),
                    self.right,
                ),
                self.bottom,
            ),
            self.top,
        )
    }

    /// The span of a node takes in the height of each of its pointers. Where the node has a
    /// pointer at all, both ends of the span are heights of pointers of the node.
    pub proof fn lemma_span(self, towards: Towards)
        ensures
            self.slot(towards) matches Some(p) ==> self.spec_span().0 <= p.height
                <= self.spec_span().1,
            self.slot(towards) is Some ==> exists|a: Towards, b: Towards|
                {
                    &&& (#[trigger] self.slot(a)) matches Some(p) && p.height == self.spec_span().0
                    &&& (#[trigger] self.slot(b)) matches Some(q) && q.height == self.spec_span().1
                },
    {
        if self.slot(towards) is Some {
            let lo = self.spec_span().0;
            let hi = self.spec_span().1;
            let a = if self.up matches Some(p) && p.height == lo {
                Towards::Up
            } else if self.down matches Some(p) && p.height == lo {
                Towards::Down
            } else if self.left matches Some(p) && p.height == lo {
                Towards::Left
            } else if self.right matches Some(p) && p.height == lo {
                Towards::Right
            } else if self.bottom matches Some(p) && p.height == lo {
                Towards::Bottom
            } else {
                Towards::Top
            };
            let b = if self.up matches Some(p) && p.height == hi {
                Towards::Up
            } else if self.down matches Some(p) && p.height == hi {
                Towards::Down
            } else if self.left matches Some(p) && p.height == hi {
                Towards::Left
            } else if self.right matches Some(p) && p.height == hi {
                Towards::Right
            } else if self.bottom matches Some(p) && p.height == hi {
                Towards::Bottom
            } else {
                Towards::Top
            };
            assert(self.slot(a) matches Some(p) && p.height == lo);
            assert(self.slot(b) matches Some(q) && q.height == hi);
        }
    }

    /// List the neighboring nodes.
    pub fn neightbors(&self) -> (res: [Option<Pointer>; 4])
        ensures
            res@ == seq![self.up, self.down, self.left, self.right],
    {
        let res = [self.up, self.down, self.left, self.right];
        proof {
            assert(res@ =~= seq![self.up, self.down, self.left, self.right]);
        }
        res
    }

    /// Find the highest and lowest height of a cell.
    pub fn span(&self) -> (res: (usize, usize))
        ensures
            res == self.spec_span(),
    {
        let acc = (usize::MAX, usize::MIN);
        let acc = widen_span(acc, self.up);
        let acc = widen_span(acc, self.down);
        let acc = widen_span(acc, self.left);
        let acc = widen_span(acc, self.right);
        let acc = widen_span(acc, self.bottom);
        widen_span(acc, self.top)
    }

    /// Get the index of a neighboring node.
    /// As the tree is 2D, `Top` and `Bottom` are not allowed as input.
    pub fn index(&self, towards: Towards) -> (res: Option<Pointer>)
        requires
            towards.planar(),
        ensures
            res == self.slot(towards),
    {
        match towards {
            Towards::Up => self.up,
            Towards::Down => self.down,
            Towards::Left => self.left,
            _ => self.right,
        }
    }
}

} // verus!
