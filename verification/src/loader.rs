use crate::components::{
    decode_bytes, decode_name, Blockage, Cell, CellType, Conflict, ConflictType, Direction,
    FactoryID, Layer, MasterCell, MasterPin, Pair, Point, Route,
};
use crate::chip::{cell_ok, cells_ok, first_pin, lemma_ends_nondecreasing, pin_cell};
use crate::tree::Net;
use crate::error::Error;
use crate::reader::{
    spec_end, spec_expect, spec_isize, spec_name, spec_token, spec_usize, tokens, Reader, Tokens,
};
use crate::text::{lemma_text_bytes, slice_is};
use vstd::prelude::*;
use vstd::string::*;

verus! {

/// A layer as a mathematical value.
pub struct LayerView {
    pub id: usize,
    pub direction: Direction,
    pub dim: Pair<usize>,
    pub capacity: Seq<usize>,
}

/// A master cell as a mathematical value.
pub struct MasterCellView {
    pub id: usize,
    pub pins: Seq<MasterPin>,
    pub blkgs: Seq<Blockage>,
}

/// A cell as a mathematical value.
pub struct CellView {
    pub id: usize,
    pub movable: CellType,
    pub moved: bool,
    pub position: Pair<usize>,
    pub pins: Seq<usize>,
}

impl View for Layer {
    type V = LayerView;

    open spec fn view(&self) -> LayerView {
        LayerView {
            id: self.id,
            direction: self.direction,
            dim: self.dim,
            capacity: self.capacity@,
        }
    }
}

impl View for MasterCell {
    type V = MasterCellView;

    open spec fn view(&self) -> MasterCellView {
        MasterCellView { id: self.id, pins: self.pins@, blkgs: self.blkgs@ }
    }
}

impl View for Cell {
    type V = CellView;

    open spec fn view(&self) -> CellView {
        CellView {
            id: self.id,
            movable: self.movable,
            moved: self.moved,
            position: self.position,
            pins: self.pins@,
        }
    }
}

/// The views of the elements of a sequence.
pub open spec fn views<T: View>(s: Seq<T>) -> Seq<T::V> {
    Seq::new(s.len(), |i: int| s[i]@)
}

/// The views of a sequence with one more element are the views of the sequence with the
/// view of that element.
pub proof fn lemma_views_push<T: View>(s: Seq<T>, x: T)
    ensures
        views(s.push(x)) == views(s).push(x@),
{
    assert(views(s.push(x)) =~= views(s).push(x@));
}

/// The views of a sequence with one element replaced are the views of the sequence with
/// the view of that element replaced.
pub proof fn lemma_views_update<T: View>(s: Seq<T>, i: int, x: T)
    requires
        0 <= i < s.len(),
    ensures
        views(s.update(i, x)) == views(s).update(i, x@),
{
    assert(views(s.update(i, x)) =~= views(s).update(i, x@));
}

/// The state after `k` records have been read, each by `step`, which takes the state so
/// far, the tokens that are left and the number of the record; the first error ends it.
pub open spec fn repeat<S>(
    step: spec_fn(S, Tokens, int) -> Result<(S, Tokens), Error>,
    init: S,
    toks: Tokens,
    k: int,
) -> Result<(S, Tokens), Error>
    decreases k,
{
    if k <= 0 {
        Ok((init, toks))
    } else {
        match repeat(step, init, toks, k - 1) {
            Err(e) => Err(e),
            Ok((s, rest)) => step(s, rest, k - 1),
        }
    }
}

/// An error stays: once some record has failed, reading more records fails in the same way.
pub proof fn lemma_repeat_error<S>(
    step: spec_fn(S, Tokens, int) -> Result<(S, Tokens), Error>,
    init: S,
    toks: Tokens,
    k: int,
    n: int,
)
    requires
        k <= n,
        repeat(step, init, toks, k) is Err,
    ensures
        repeat(step, init, toks, n) == repeat(step, init, toks, k),
    decreases n - k,
{
    if k < n {
        lemma_repeat_error(step, init, toks, k, n - 1);
    }
}

/// The head of the description: the move limit and the grid's dimensions.
pub open spec fn spec_header(toks: Tokens) -> Result<((usize, Pair<usize>), Tokens), Error> {
    match spec_expect(toks, "MaxCellMove") {
        Err(e) => Err(e),
        Ok(t1) => match spec_usize(t1) {
            Err(e) => Err(e),
            Ok((max_move, t2)) => match spec_expect(t2, "GGridBoundaryIdx") {
                Err(e) => Err(e),
                Ok(t3) => match spec_usize(t3) {
                    Err(e) => Err(e),
                    Ok((row_beg, t4)) => match spec_usize(t4) {
                        Err(e) => Err(e),
                        Ok((col_beg, t5)) => if row_beg != 1 || col_beg != 1 {
                            Err(Error::Corrupt)
                        } else {
                            match spec_usize(t5) {
                                Err(e) => Err(e),
                                Ok((row_end, t6)) => match spec_usize(t6) {
                                    Err(e) => Err(e),
                                    Ok((col_end, t7)) => if row_end * col_end > usize::MAX {
                                        Err(Error::Corrupt)
                                    } else {
                                        Ok(((max_move, Pair(row_end, col_end)), t7))
                                    },
                                },
                            }
                        },
                    },
                },
            },
        },
    }
}

/// Reads the head of the description.
pub fn parse_header(reader: &mut Reader) -> (res: Result<(usize, Pair<usize>), Error>)
    requires
        old(reader).wf(),
    ensures
        final(reader).wf(),
        match spec_header(old(reader)@) {
            Ok((v, rest)) => res == Ok::<(usize, Pair<usize>), Error>(v) && final(reader)@ == rest,
            Err(e) => res == Err::<(usize, Pair<usize>), Error>(e),
        },
{
    reader.expect("MaxCellMove")?;
    let max_move = reader.take_usize()?;
    reader.expect("GGridBoundaryIdx")?;
    let row_beg = reader.take_usize()?;
    let col_beg = reader.take_usize()?;
    if row_beg != 1 || col_beg != 1 {
        return Err(Error::Corrupt);
    }
    let row_end = reader.take_usize()?;
    let col_end = reader.take_usize()?;
    match row_end.checked_mul(col_end) {
        Some(_) => Ok((max_move, Pair(row_end, col_end))),
        None => Err(Error::Corrupt),
    }
}

/// The routing direction that a token names.
pub open spec fn spec_direction(toks: Tokens) -> Result<(Direction, Tokens), Error> {
    match spec_token(toks) {
        Err(e) => Err(e),
        Ok((t, rest)) => if t == "H".spec_bytes() {
            Ok((Direction::Horizontal, rest))
        } else if t == "V".spec_bytes() {
            Ok((Direction::Vertical, rest))
        } else {
            Err(Error::SyntaxError { expected: "V" })
        },
    }
}

/// The layer that record `idx` of the layer section declares: its name and its index must
/// both be one more than `idx`.
pub open spec fn spec_layer(toks: Tokens, dim: Pair<usize>, idx: int) -> Result<
    (LayerView, Tokens),
    Error,
> {
    match spec_expect(toks, "Lay") {
        Err(e) => Err(e),
        Ok(t1) => match spec_token(t1) {
            Err(e) => Err(e),
            Ok((name, t2)) => match spec_usize(t2) {
                Err(e) => Err(e),
                Ok((layer_id, t3)) => match crate::components::decode_name(
                    Layer::spec_prefix(),
                    name,
                ) {
                    Err(e) => Err(e),
                    Ok(id) => if layer_id != id + 1 || id != idx {
                        Err(Error::Corrupt)
                    } else {
                        match spec_direction(t3) {
                            Err(e) => Err(e),
                            Ok((direction, t4)) => match spec_usize(t4) {
                                Err(e) => Err(e),
                                Ok((supply, t5)) => Ok(
                                    (
                                        LayerView {
                                            id: id,
                                            direction,
                                            dim,
                                            capacity: Seq::new(
                                                (dim.0 * dim.1) as nat,
                                                |i: int| supply,
                                            ),
                                        },
                                        t5,
                                    ),
                                ),
                            },
                        }
                    },
                },
            },
        },
    }
}

/// One more layer read onto the layers so far.
pub open spec fn layer_step(dim: Pair<usize>) -> spec_fn(Seq<LayerView>, Tokens, int) -> Result<
    (Seq<LayerView>, Tokens),
    Error,
> {
    |acc: Seq<LayerView>, toks: Tokens, idx: int|
        match spec_layer(toks, dim, idx) {
            Err(e) => Err(e),
            Ok((layer, rest)) => Ok((acc.push(layer), rest)),
        }
}

/// The layer section: the count, then that many layers.
pub open spec fn spec_layers(toks: Tokens, dim: Pair<usize>) -> Result<
    (Seq<LayerView>, Tokens),
    Error,
> {
    match spec_expect(toks, "NumLayer") {
        Err(e) => Err(e),
        Ok(t1) => match spec_usize(t1) {
            Err(e) => Err(e),
            Ok((count, t2)) => repeat(layer_step(dim), Seq::empty(), t2, count as int),
        },
    }
}

/// Reads a routing direction.
pub fn parse_direction(reader: &mut Reader) -> (res: Result<Direction, Error>)
    requires
        old(reader).wf(),
    ensures
        final(reader).wf(),
        match spec_direction(old(reader)@) {
            Ok((v, rest)) => res == Ok::<Direction, Error>(v) && final(reader)@ == rest,
            Err(e) => res == Err::<Direction, Error>(e),
        },
{
    let token = reader.take_token()?;
    proof {
        assert(token@.subrange(0, token@.len() as int) =~= token@);
    }
    if slice_is(token, 0, token.len(), "H") {
        Ok(Direction::Horizontal)
    } else if slice_is(token, 0, token.len(), "V") {
        Ok(Direction::Vertical)
    } else {
        Err(Error::SyntaxError { expected: "V" })
    }
}

/// Reads record `idx` of the layer section.
pub fn parse_layer(reader: &mut Reader, dim: Pair<usize>, idx: usize) -> (res: Result<Layer, Error>)
    requires
        old(reader).wf(),
        dim.0 * dim.1 <= usize::MAX,
    ensures
        final(reader).wf(),
        match spec_layer(old(reader)@, dim, idx as int) {
            Ok((v, rest)) => res is Ok && res->Ok_0@ == v && final(reader)@ == rest && layer_ok(v),
            Err(e) => res == Err::<Layer, Error>(e),
        },
{
    reader.expect("Lay")?;
    let name = reader.take_token()?;
    let layer_id = reader.take_usize()?;
    let prefix = Layer::prefix();
    proof {
        lemma_text_bytes(prefix, Layer::spec_prefix());
        assert(name@.subrange(0, name@.len() as int) =~= name@);
    }
    let id = crate::components::decode_bytes(prefix, name, 0, name.len())?;
    if layer_id != id + 1 || id != idx {
        return Err(Error::Corrupt);
    }
    let direction = parse_direction(reader)?;
    let supply = reader.take_usize()?;
    let capacity = vec![supply; dim.size()];
    proof {
        assert(capacity@ =~= Seq::new((dim.0 * dim.1) as nat, |i: int| supply));
    }
    Ok(Layer { id, direction, dim, capacity })
}

/// Reads the layer section.
pub fn parse_layers(reader: &mut Reader, dim: Pair<usize>) -> (res: Result<Vec<Layer>, Error>)
    requires
        old(reader).wf(),
        dim.0 * dim.1 <= usize::MAX,
    ensures
        final(reader).wf(),
        match spec_layers(old(reader)@, dim) {
            Ok((v, rest)) => res is Ok && views(res->Ok_0@) == v && final(reader)@ == rest
                && layers_ok(v),
            Err(e) => res == Err::<Vec<Layer>, Error>(e),
        },
{
    reader.expect("NumLayer")?;
    let count = reader.take_usize()?;
    let ghost start = reader@;
    let ghost step = layer_step(dim);
    let mut layers: Vec<Layer> = Vec::new();
    let mut idx: usize = 0;
    proof {
        assert(views(layers@) =~= Seq::<LayerView>::empty());
    }
    while idx < count
        invariant
            reader.wf(),
            dim.0 * dim.1 <= usize::MAX,
            0 <= idx <= count,
            step == layer_step(dim),
            layers_ok(views(layers@)),
            spec_layers(old(reader)@, dim) == repeat(step, Seq::empty(), start, count as int),
            repeat(step, Seq::empty(), start, idx as int) == Ok::<(Seq<LayerView>, Tokens), Error>(
                (views(layers@), reader@),
            ),
        decreases count - idx,
    {
        let ghost before = layers@;
        match parse_layer(reader, dim, idx) {
            Ok(layer) => {
                layers.push(layer);
                proof {
                    lemma_views_push(before, layer);
                }
            },
            Err(e) => {
                proof {
                    assert(repeat(step, Seq::empty(), start, idx + 1) == Err::<
                        (Seq<LayerView>, Tokens),
                        Error,
                    >(e));
                    lemma_repeat_error(step, Seq::empty(), start, idx + 1, count as int);
                }
                return Err(e);
            },
        }
        idx += 1;
    }
    Ok(layers)
}

/// Reads a name under the class prefix of `T`.
pub fn read_name<T: FactoryID>(reader: &mut Reader) -> (res: Result<usize, Error>)
    requires
        old(reader).wf(),
    ensures
        final(reader).wf(),
        match spec_name(old(reader)@, T::spec_prefix()) {
            Ok((id, rest)) => res == Ok::<usize, Error>(id) && final(reader)@ == rest,
            Err(e) => res == Err::<usize, Error>(e),
        },
{
    let prefix = T::prefix();
    proof {
        lemma_text_bytes(prefix, T::spec_prefix());
    }
    reader.take_name(prefix)
}

/// The id that the token `name` stands for under the class prefix of `T`.
pub fn name_id<T: FactoryID>(name: &[u8]) -> (res: Result<usize, Error>)
    ensures
        res == decode_name(T::spec_prefix(), name@),
{
    let prefix = T::prefix();
    proof {
        lemma_text_bytes(prefix, T::spec_prefix());
        assert(name@.subrange(0, name@.len() as int) =~= name@);
    }
    decode_bytes(prefix, name, 0, name.len())
}

/// The capacity vector of a layer holds one entry per grid cell.
pub open spec fn layer_ok(layer: LayerView) -> bool {
    layer.capacity.len() == layer.dim.0 * layer.dim.1
}

/// Every layer holds one capacity per grid cell.
pub open spec fn layers_ok(layers: Seq<LayerView>) -> bool {
    forall|i: int| 0 <= i < layers.len() ==> layer_ok(#[trigger] layers[i])
}

/// The layers after one record of the supply section: the capacity of grid cell `(row, col)`
/// of layer `lay`, all counted from one, changes by `delta`. The record is refused where the
/// cell does not exist or its capacity would leave the range of `usize`.
pub open spec fn spec_delta(layers: Seq<LayerView>, toks: Tokens) -> Result<
    (Seq<LayerView>, Tokens),
    Error,
> {
    match spec_usize(toks) {
        Err(e) => Err(e),
        Ok((row, t1)) => match spec_usize(t1) {
            Err(e) => Err(e),
            Ok((col, t2)) => match spec_usize(t2) {
                Err(e) => Err(e),
                Ok((lay, t3)) => match spec_isize(t3) {
                    Err(e) => Err(e),
                    Ok((delta, t4)) => if row < 1 || col < 1 || lay < 1 || lay - 1 >= layers.len() {
                        Err(Error::Corrupt)
                    } else {
                        let layer = layers[lay - 1];
                        if row - 1 >= layer.dim.0 || col - 1 >= layer.dim.1 {
                            Err(Error::Corrupt)
                        } else {
                            let at = (row - 1) * layer.dim.1 + (col - 1);
                            let changed = layer.capacity[at] + delta;
                            if changed < 0 || changed > usize::MAX {
                                Err(Error::Corrupt)
                            } else {
                                Ok(
                                    (
                                        layers.update(
                                            lay - 1,
                                            LayerView {
                                                capacity: layer.capacity.update(
                                                    at,
                                                    changed as usize,
                                                ),
                                                ..layer
                                            },
                                        ),
                                        t4,
                                    ),
                                )
                            }
                        }
                    },
                },
            },
        },
    }
}

/// One more record of the supply section applied to the layers.
pub open spec fn delta_step() -> spec_fn(Seq<LayerView>, Tokens, int) -> Result<
    (Seq<LayerView>, Tokens),
    Error,
> {
    |acc: Seq<LayerView>, toks: Tokens, idx: int| spec_delta(acc, toks)
}

/// The supply section: the count, then that many changes of capacity.
pub open spec fn spec_deltas(toks: Tokens, layers: Seq<LayerView>) -> Result<
    (Seq<LayerView>, Tokens),
    Error,
> {
    match spec_expect(toks, "NumNonDefaultSupplyGGrid") {
        Err(e) => Err(e),
        Ok(t1) => match spec_usize(t1) {
            Err(e) => Err(e),
            Ok((count, t2)) => repeat(delta_step(), layers, t2, count as int),
        },
    }
}

/// `capacity` changed by `delta`, where that stays within `usize`.
pub fn shifted(capacity: usize, delta: isize) -> (res: Option<usize>)
    ensures
        res == if 0 <= capacity + delta <= usize::MAX {
            Some((capacity + delta) as usize)
        } else {
            None
        },
{
    if delta >= 0 {
        capacity.checked_add(delta as usize)
    } else {
        let drop: usize = if delta == isize::MIN {
            (isize::MAX as usize) + 1
        } else {
            (-delta) as usize
        };
        capacity.checked_sub(drop)
    }
}

/// Reads one record of the supply section and applies it to `layers`.
pub fn parse_delta(reader: &mut Reader, layers: &mut Vec<Layer>) -> (res: Result<(), Error>)
    requires
        old(reader).wf(),
        layers_ok(views(old(layers)@)),
    ensures
        final(reader).wf(),
        match spec_delta(views(old(layers)@), old(reader)@) {
            Ok((v, rest)) => res is Ok && views(final(layers)@) == v && final(reader)@ == rest
                && layers_ok(v),
            Err(e) => res == Err::<(), Error>(e) && final(layers)@ == old(layers)@,
        },
{
    let row = reader.take_usize()?;
    let col = reader.take_usize()?;
    let lay = reader.take_usize()?;
    let delta = reader.take_isize()?;
    if row < 1 || col < 1 || lay < 1 || lay - 1 >= layers.len() {
        return Err(Error::Corrupt);
    }
    let ghost before = layers@;
    let ghost layer = before[lay - 1]@;
    proof {
        assert(views(before)[lay - 1] == layer);
        assert(layer_ok(views(before)[lay - 1]));
    }
    proof {
        assert(before[lay - 1].wf());
        if row - 1 < before[lay - 1].dim.0 && col - 1 < before[lay - 1].dim.1 {
            before[lay - 1].lemma_index(row - 1, col - 1);
        }
    }
    let at = match layers[lay - 1].cell_index(row - 1, col - 1) {
        Some(at) => at,
        None => {
            return Err(Error::Corrupt);
        },
    };
    let changed = match shifted(layers[lay - 1].capacity[at], delta) {
        Some(v) => v,
        None => {
            return Err(Error::Corrupt);
        },
    };
    layers[lay - 1].capacity[at] = changed;
    proof {
        lemma_views_update(before, lay - 1, layers@[lay - 1]);
        assert(layers@ =~= before.update(lay - 1, layers@[lay - 1]));
        let v = views(layers@);
        assert forall|i: int| 0 <= i < v.len() implies layer_ok(#[trigger] v[i]) by {
            if i != lay - 1 {
                assert(v[i] == views(before)[i]);
            }
        }
    }
    Ok(())
}

/// Reads the supply section and applies it to `layers`.
pub fn parse_deltas(reader: &mut Reader, layers: &mut Vec<Layer>) -> (res: Result<(), Error>)
    requires
        old(reader).wf(),
        layers_ok(views(old(layers)@)),
    ensures
        final(reader).wf(),
        match spec_deltas(old(reader)@, views(old(layers)@)) {
            Ok((v, rest)) => res is Ok && views(final(layers)@) == v && final(reader)@ == rest
                && layers_ok(v),
            Err(e) => res == Err::<(), Error>(e),
        },
{
    reader.expect("NumNonDefaultSupplyGGrid")?;
    let count = reader.take_usize()?;
    let ghost start = reader@;
    let ghost init = views(layers@);
    let ghost step = delta_step();
    let mut idx: usize = 0;
    while idx < count
        invariant
            reader.wf(),
            0 <= idx <= count,
            step == delta_step(),
            layers_ok(views(layers@)),
            spec_deltas(old(reader)@, views(old(layers)@)) == repeat(step, init, start, count as int),
            repeat(step, init, start, idx as int) == Ok::<(Seq<LayerView>, Tokens), Error>(
                (views(layers@), reader@),
            ),
        decreases count - idx,
    {
        match parse_delta(reader, layers) {
            Ok(()) => {},
            Err(e) => {
                proof {
                    assert(repeat(step, init, start, idx + 1) == Err::<
                        (Seq<LayerView>, Tokens),
                        Error,
                    >(e));
                    lemma_repeat_error(step, init, start, idx + 1, count as int);
                }
                return Err(e);
            },
        }
        idx += 1;
    }
    Ok(())
}

/// Some pin of `pins` has the id `id`.
pub open spec fn has_pin(pins: Seq<MasterPin>, id: usize) -> bool {
    exists|i: int| 0 <= i < pins.len() && (#[trigger] pins[i]).id == id
}

/// Some blockage of `blkgs` has the id `id`.
pub open spec fn has_blockage(blkgs: Seq<Blockage>, id: usize) -> bool {
    exists|i: int| 0 <= i < blkgs.len() && (#[trigger] blkgs[i]).id == id
}

/// The pins of a master cell after one more pin record; an id that is there already is
/// refused.
pub open spec fn spec_master_pin(pins: Seq<MasterPin>, toks: Tokens) -> Result<
    (Seq<MasterPin>, Tokens),
    Error,
> {
    match spec_expect(toks, "Pin") {
        Err(e) => Err(e),
        Ok(t1) => match spec_token(t1) {
            Err(e) => Err(e),
            Ok((pin_name, t2)) => match spec_token(t2) {
                Err(e) => Err(e),
                Ok((pin_layer, t3)) => match decode_name(MasterPin::spec_prefix(), pin_name) {
                    Err(e) => Err(e),
                    Ok(id) => match decode_name(Layer::spec_prefix(), pin_layer) {
                        Err(e) => Err(e),
                        Ok(layer) => if has_pin(pins, id) {
                            Err(Error::Corrupt)
                        } else {
                            Ok((pins.push(MasterPin { id, layer }), t3))
                        },
                    },
                },
            },
        },
    }
}

/// The blockages of a master cell after one more blockage record; an id that is there
/// already is refused.
pub open spec fn spec_blockage(blkgs: Seq<Blockage>, toks: Tokens) -> Result<
    (Seq<Blockage>, Tokens),
    Error,
> {
    match spec_expect(toks, "Blkg") {
        Err(e) => Err(e),
        Ok(t1) => match spec_token(t1) {
            Err(e) => Err(e),
            Ok((blkg_name, t2)) => match spec_token(t2) {
                Err(e) => Err(e),
                Ok((blkg_layer, t3)) => match spec_usize(t3) {
                    Err(e) => Err(e),
                    Ok((demand, t4)) => match decode_name(Layer::spec_prefix(), blkg_layer) {
                        Err(e) => Err(e),
                        Ok(layer) => match decode_name(Blockage::spec_prefix(), blkg_name) {
                            Err(e) => Err(e),
                            Ok(id) => if has_blockage(blkgs, id) {
                                Err(Error::Corrupt)
                            } else {
                                Ok((blkgs.push(Blockage { id, layer, demand }), t4))
                            },
                        },
                    },
                },
            },
        },
    }
}

/// One more pin record read onto the pins of a master cell.
pub open spec fn master_pin_step() -> spec_fn(Seq<MasterPin>, Tokens, int) -> Result<
    (Seq<MasterPin>, Tokens),
    Error,
> {
    |acc: Seq<MasterPin>, toks: Tokens, idx: int| spec_master_pin(acc, toks)
}

/// One more blockage record read onto the blockages of a master cell.
pub open spec fn blockage_step() -> spec_fn(Seq<Blockage>, Tokens, int) -> Result<
    (Seq<Blockage>, Tokens),
    Error,
> {
    |acc: Seq<Blockage>, toks: Tokens, idx: int| spec_blockage(acc, toks)
}

/// The master cell that record `idx` of the master cell section declares: its name must be
/// that of `idx`.
pub open spec fn spec_master_cell(toks: Tokens, idx: int) -> Result<(MasterCellView, Tokens), Error> {
    match spec_expect(toks, "MasterCell") {
        Err(e) => Err(e),
        Ok(t1) => match spec_name(t1, MasterCell::spec_prefix()) {
            Err(e) => Err(e),
            Ok((id, t2)) => if id != idx {
                Err(Error::Corrupt)
            } else {
                match spec_usize(t2) {
                    Err(e) => Err(e),
                    Ok((num_pins, t3)) => match spec_usize(t3) {
                        Err(e) => Err(e),
                        Ok((num_blkgs, t4)) => match repeat(
                            master_pin_step(),
                            Seq::empty(),
                            t4,
                            num_pins as int,
                        ) {
                            Err(e) => Err(e),
                            Ok((pins, t5)) => match repeat(
                                blockage_step(),
                                Seq::empty(),
                                t5,
                                num_blkgs as int,
                            ) {
                                Err(e) => Err(e),
                                Ok((blkgs, t6)) => Ok((MasterCellView { id, pins, blkgs }, t6)),
                            },
                        },
                    },
                }
            },
        },
    }
}

/// One more master cell read onto the master cells so far.
pub open spec fn master_cell_step() -> spec_fn(Seq<MasterCellView>, Tokens, int) -> Result<
    (Seq<MasterCellView>, Tokens),
    Error,
> {
    |acc: Seq<MasterCellView>, toks: Tokens, idx: int|
        match spec_master_cell(toks, idx) {
            Err(e) => Err(e),
            Ok((cell, rest)) => Ok((acc.push(cell), rest)),
        }
}

/// The master cell section: the count, then that many master cells.
pub open spec fn spec_master_cells(toks: Tokens) -> Result<(Seq<MasterCellView>, Tokens), Error> {
    match spec_expect(toks, "NumMasterCell") {
        Err(e) => Err(e),
        Ok(t1) => match spec_usize(t1) {
            Err(e) => Err(e),
            Ok((count, t2)) => repeat(master_cell_step(), Seq::empty(), t2, count as int),
        },
    }
}

/// Reads one pin record of a master cell onto `pins`.
pub fn parse_master_pin(reader: &mut Reader, pins: &mut Vec<MasterPin>) -> (res: Result<(), Error>)
    requires
        old(reader).wf(),
    ensures
        final(reader).wf(),
        match spec_master_pin(old(pins)@, old(reader)@) {
            Ok((v, rest)) => res is Ok && final(pins)@ == v && final(reader)@ == rest,
            Err(e) => res == Err::<(), Error>(e) && final(pins)@ == old(pins)@,
        },
{
    reader.expect("Pin")?;
    let pin_name = reader.take_token()?;
    let pin_layer = reader.take_token()?;
    let id = name_id::<MasterPin>(pin_name)?;
    let layer = name_id::<Layer>(pin_layer)?;
    if pin_id_used(pins, id) {
        return Err(Error::Corrupt);
    }
    pins.push(MasterPin { id, layer });
    Ok(())
}

/// Whether some pin of `pins` has the id `id`.
pub fn pin_id_used(pins: &Vec<MasterPin>, id: usize) -> (res: bool)
    ensures
        res == has_pin(pins@, id),
{
    let mut i: usize = 0;
    while i < pins.len()
        invariant
            0 <= i <= pins@.len(),
            forall|k: int| 0 <= k < i ==> (#[trigger] pins@[k]).id != id,
        decreases pins@.len() - i,
    {
        if pins[i].id == id {
            return true;
        }
        i += 1;
    }
    false
}

/// Whether some blockage of `blkgs` has the id `id`.
pub fn blockage_id_used(blkgs: &Vec<Blockage>, id: usize) -> (res: bool)
    ensures
        res == has_blockage(blkgs@, id),
{
    let mut i: usize = 0;
    while i < blkgs.len()
        invariant
            0 <= i <= blkgs@.len(),
            forall|k: int| 0 <= k < i ==> (#[trigger] blkgs@[k]).id != id,
        decreases blkgs@.len() - i,
    {
        if blkgs[i].id == id {
            return true;
        }
        i += 1;
    }
    false
}

/// Reads one blockage record of a master cell onto `blkgs`.
pub fn parse_blockage(reader: &mut Reader, blkgs: &mut Vec<Blockage>) -> (res: Result<(), Error>)
    requires
        old(reader).wf(),
    ensures
        final(reader).wf(),
        match spec_blockage(old(blkgs)@, old(reader)@) {
            Ok((v, rest)) => res is Ok && final(blkgs)@ == v && final(reader)@ == rest,
            Err(e) => res == Err::<(), Error>(e) && final(blkgs)@ == old(blkgs)@,
        },
{
    reader.expect("Blkg")?;
    let blkg_name = reader.take_token()?;
    let blkg_layer = reader.take_token()?;
    let demand = reader.take_usize()?;
    let layer = name_id::<Layer>(blkg_layer)?;
    let id = name_id::<Blockage>(blkg_name)?;
    if blockage_id_used(blkgs, id) {
        return Err(Error::Corrupt);
    }
    blkgs.push(Blockage { id, layer, demand });
    Ok(())
}

/// Reads `count` pin records of a master cell.
pub fn parse_master_pins(reader: &mut Reader, count: usize) -> (res: Result<Vec<MasterPin>, Error>)
    requires
        old(reader).wf(),
    ensures
        final(reader).wf(),
        match repeat(master_pin_step(), Seq::empty(), old(reader)@, count as int) {
            Ok((v, rest)) => res is Ok && res->Ok_0@ == v && final(reader)@ == rest,
            Err(e) => res == Err::<Vec<MasterPin>, Error>(e),
        },
{
    let ghost start = reader@;
    let ghost step = master_pin_step();
    let mut pins: Vec<MasterPin> = Vec::new();
    let mut k: usize = 0;
    while k < count
        invariant
            reader.wf(),
            0 <= k <= count,
            step == master_pin_step(),
            start == old(reader)@,
            repeat(step, Seq::empty(), start, k as int) == Ok::<(Seq<MasterPin>, Tokens), Error>(
                (pins@, reader@),
            ),
        decreases count - k,
    {
        match parse_master_pin(reader, &mut pins) {
            Ok(()) => {},
            Err(e) => {
                proof {
                    assert(repeat(step, Seq::empty(), start, k + 1) == Err::<
                        (Seq<MasterPin>, Tokens),
                        Error,
                    >(e));
                    lemma_repeat_error(step, Seq::empty(), start, k + 1, count as int);
                }
                return Err(e);
            },
        }
        k += 1;
    }
    Ok(pins)
}

/// Reads `count` blockage records of a master cell.
pub fn parse_blockages(reader: &mut Reader, count: usize) -> (res: Result<Vec<Blockage>, Error>)
    requires
        old(reader).wf(),
    ensures
        final(reader).wf(),
        match repeat(blockage_step(), Seq::empty(), old(reader)@, count as int) {
            Ok((v, rest)) => res is Ok && res->Ok_0@ == v && final(reader)@ == rest,
            Err(e) => res == Err::<Vec<Blockage>, Error>(e),
        },
{
    let ghost start = reader@;
    let ghost step = blockage_step();
    let mut blkgs: Vec<Blockage> = Vec::new();
    let mut k: usize = 0;
    while k < count
        invariant
            reader.wf(),
            0 <= k <= count,
            step == blockage_step(),
            start == old(reader)@,
            repeat(step, Seq::empty(), start, k as int) == Ok::<(Seq<Blockage>, Tokens), Error>(
                (blkgs@, reader@),
            ),
        decreases count - k,
    {
        match parse_blockage(reader, &mut blkgs) {
            Ok(()) => {},
            Err(e) => {
                proof {
                    assert(repeat(step, Seq::empty(), start, k + 1) == Err::<
                        (Seq<Blockage>, Tokens),
                        Error,
                    >(e));
                    lemma_repeat_error(step, Seq::empty(), start, k + 1, count as int);
                }
                return Err(e);
            },
        }
        k += 1;
    }
    Ok(blkgs)
}

/// Reads record `idx` of the master cell section.
pub fn parse_master_cell(reader: &mut Reader, idx: usize) -> (res: Result<MasterCell, Error>)
    requires
        old(reader).wf(),
    ensures
        final(reader).wf(),
        match spec_master_cell(old(reader)@, idx as int) {
            Ok((v, rest)) => res is Ok && res->Ok_0@ == v && final(reader)@ == rest,
            Err(e) => res == Err::<MasterCell, Error>(e),
        },
{
    reader.expect("MasterCell")?;
    let id = read_name::<MasterCell>(reader)?;
    if id != idx {
        return Err(Error::Corrupt);
    }
    let num_pins = reader.take_usize()?;
    let num_blkgs = reader.take_usize()?;
    let pins = parse_master_pins(reader, num_pins)?;
    let blkgs = parse_blockages(reader, num_blkgs)?;
    Ok(MasterCell { id, pins, blkgs })
}

/// Reads the master cell section.
pub fn parse_master_cells(reader: &mut Reader) -> (res: Result<Vec<MasterCell>, Error>)
    requires
        old(reader).wf(),
    ensures
        final(reader).wf(),
        match spec_master_cells(old(reader)@) {
            Ok((v, rest)) => res is Ok && views(res->Ok_0@) == v && final(reader)@ == rest,
            Err(e) => res == Err::<Vec<MasterCell>, Error>(e),
        },
{
    reader.expect("NumMasterCell")?;
    let count = reader.take_usize()?;
    let ghost start = reader@;
    let ghost step = master_cell_step();
    let mut cells: Vec<MasterCell> = Vec::new();
    let mut idx: usize = 0;
    proof {
        assert(views(cells@) =~= Seq::<MasterCellView>::empty());
    }
    while idx < count
        invariant
            reader.wf(),
            0 <= idx <= count,
            step == master_cell_step(),
            spec_master_cells(old(reader)@) == repeat(step, Seq::empty(), start, count as int),
            repeat(step, Seq::empty(), start, idx as int) == Ok::<
                (Seq<MasterCellView>, Tokens),
                Error,
            >((views(cells@), reader@)),
        decreases count - idx,
    {
        let ghost before = cells@;
        match parse_master_cell(reader, idx) {
            Ok(cell) => {
                cells.push(cell);
                proof {
                    lemma_views_push(before, cell);
                }
            },
            Err(e) => {
                proof {
                    assert(repeat(step, Seq::empty(), start, idx + 1) == Err::<
                        (Seq<MasterCellView>, Tokens),
                        Error,
                    >(e));
                    lemma_repeat_error(step, Seq::empty(), start, idx + 1, count as int);
                }
                return Err(e);
            },
        }
        idx += 1;
    }
    Ok(cells)
}

/// The kind of conflict that a token names.
pub open spec fn spec_conflict_kind(toks: Tokens) -> Result<(ConflictType, Tokens), Error> {
    match spec_token(toks) {
        Err(e) => Err(e),
        Ok((t, rest)) => if t == "adjHGGrid".spec_bytes() {
            Ok((ConflictType::AdjHGGrid, rest))
        } else if t == "sameGGrid".spec_bytes() {
            Ok((ConflictType::SameGGrid, rest))
        } else {
            Err(Error::SyntaxError { expected: "sameGGrid" })
        },
    }
}

/// `list` with `entry` at its end, unless it holds `entry` already.
pub open spec fn with_entry(list: Seq<(usize, Conflict)>, entry: (usize, Conflict)) -> Seq<
    (usize, Conflict),
> {
    if list.contains(entry) {
        list
    } else {
        list.push(entry)
    }
}

/// The conflicts after one more record of the conflict section: the demand is entered under
/// the first master cell against the second, and under the second against the first where the
/// two differ.
pub open spec fn spec_conflict(list: Seq<(usize, Conflict)>, toks: Tokens) -> Result<
    (Seq<(usize, Conflict)>, Tokens),
    Error,
> {
    match spec_conflict_kind(toks) {
        Err(e) => Err(e),
        Ok((kind, t1)) => match spec_token(t1) {
            Err(e) => Err(e),
            Ok((first, t2)) => match spec_token(t2) {
                Err(e) => Err(e),
                Ok((second, t3)) => match spec_token(t3) {
                    Err(e) => Err(e),
                    Ok((layer_name, t4)) => match spec_usize(t4) {
                        Err(e) => Err(e),
                        Ok((demand, t5)) => match decode_name(MasterCell::spec_prefix(), first) {
                            Err(e) => Err(e),
                            Ok(a) => match decode_name(MasterCell::spec_prefix(), second) {
                                Err(e) => Err(e),
                                Ok(b) => match decode_name(Layer::spec_prefix(), layer_name) {
                                    Err(e) => Err(e),
                                    Ok(layer) => {
                                        let one = with_entry(
                                            list,
                                            (a, Conflict { kind, id: b, layer, demand }),
                                        );
                                        if a == b {
                                            Ok((one, t5))
                                        } else {
                                            Ok(
                                                (
                                                    with_entry(
                                                        one,
                                                        (b, Conflict { kind, id: a, layer, demand }),
                                                    ),
                                                    t5,
                                                ),
                                            )
                                        }
                                    },
                                },
                            },
                        },
                    },
                },
            },
        },
    }
}

/// One more record of the conflict section read onto the conflicts so far.
pub open spec fn conflict_step() -> spec_fn(Seq<(usize, Conflict)>, Tokens, int) -> Result<
    (Seq<(usize, Conflict)>, Tokens),
    Error,
> {
    |acc: Seq<(usize, Conflict)>, toks: Tokens, idx: int| spec_conflict(acc, toks)
}

/// The conflict section: the count, then that many records.
pub open spec fn spec_conflicts(toks: Tokens) -> Result<(Seq<(usize, Conflict)>, Tokens), Error> {
    match spec_expect(toks, "NumNeighborCellExtraDemand") {
        Err(e) => Err(e),
        Ok(t1) => match spec_usize(t1) {
            Err(e) => Err(e),
            Ok((count, t2)) => repeat(conflict_step(), Seq::empty(), t2, count as int),
        },
    }
}

/// Reads a kind of conflict.
pub fn parse_conflict_kind(reader: &mut Reader) -> (res: Result<ConflictType, Error>)
    requires
        old(reader).wf(),
    ensures
        final(reader).wf(),
        match spec_conflict_kind(old(reader)@) {
            Ok((v, rest)) => res == Ok::<ConflictType, Error>(v) && final(reader)@ == rest,
            Err(e) => res == Err::<ConflictType, Error>(e),
        },
{
    let token = reader.take_token()?;
    proof {
        assert(token@.subrange(0, token@.len() as int) =~= token@);
    }
    if slice_is(token, 0, token.len(), "adjHGGrid") {
        Ok(ConflictType::AdjHGGrid)
    } else if slice_is(token, 0, token.len(), "sameGGrid") {
        Ok(ConflictType::SameGGrid)
    } else {
        Err(Error::SyntaxError { expected: "sameGGrid" })
    }
}

/// Puts `entry` at the end of `list`, unless `list` holds it already.
pub fn add_entry(list: &mut Vec<(usize, Conflict)>, entry: (usize, Conflict))
    ensures
        final(list)@ == with_entry(old(list)@, entry),
{
    let mut i: usize = 0;
    while i < list.len()
        invariant
            0 <= i <= list@.len(),
            list@ == old(list)@,
            forall|k: int| 0 <= k < i ==> list@[k] != entry,
        decreases list@.len() - i,
    {
        let here = list[i];
        if here.0 == entry.0 && here.1 == entry.1 {
            proof {
                assert(list@[i as int] == entry);
            }
            return ;
        }
        i += 1;
    }
    list.push(entry);
}

/// Reads one record of the conflict section onto `list`.
pub fn parse_conflict(reader: &mut Reader, list: &mut Vec<(usize, Conflict)>) -> (res: Result<
    (),
    Error,
>)
    requires
        old(reader).wf(),
    ensures
        final(reader).wf(),
        match spec_conflict(old(list)@, old(reader)@) {
            Ok((v, rest)) => res is Ok && final(list)@ == v && final(reader)@ == rest,
            Err(e) => res == Err::<(), Error>(e) && final(list)@ == old(list)@,
        },
{
    let kind = parse_conflict_kind(reader)?;
    let first = reader.take_token()?;
    let second = reader.take_token()?;
    let layer_name = reader.take_token()?;
    let demand = reader.take_usize()?;
    let a = name_id::<MasterCell>(first)?;
    let b = name_id::<MasterCell>(second)?;
    let layer = name_id::<Layer>(layer_name)?;
    add_entry(list, (a, Conflict { kind, id: b, layer, demand }));
    if a != b {
        add_entry(list, (b, Conflict { kind, id: a, layer, demand }));
    }
    Ok(())
}

/// Reads the conflict section.
pub fn parse_conflicts(reader: &mut Reader) -> (res: Result<Vec<(usize, Conflict)>, Error>)
    requires
        old(reader).wf(),
    ensures
        final(reader).wf(),
        match spec_conflicts(old(reader)@) {
            Ok((v, rest)) => res is Ok && res->Ok_0@ == v && final(reader)@ == rest,
            Err(e) => res == Err::<Vec<(usize, Conflict)>, Error>(e),
        },
{
    reader.expect("NumNeighborCellExtraDemand")?;
    let count = reader.take_usize()?;
    let ghost start = reader@;
    let ghost step = conflict_step();
    let mut list: Vec<(usize, Conflict)> = Vec::new();
    let mut idx: usize = 0;
    while idx < count
        invariant
            reader.wf(),
            0 <= idx <= count,
            step == conflict_step(),
            spec_conflicts(old(reader)@) == repeat(step, Seq::empty(), start, count as int),
            repeat(step, Seq::empty(), start, idx as int) == Ok::<
                (Seq<(usize, Conflict)>, Tokens),
                Error,
            >((list@, reader@)),
        decreases count - idx,
    {
        match parse_conflict(reader, &mut list) {
            Ok(()) => {},
            Err(e) => {
                proof {
                    assert(repeat(step, Seq::empty(), start, idx + 1) == Err::<
                        (Seq<(usize, Conflict)>, Tokens),
                        Error,
                    >(e));
                    lemma_repeat_error(step, Seq::empty(), start, idx + 1, count as int);
                }
                return Err(e);
            },
        }
        idx += 1;
    }
    Ok(list)
}

/// Whether a cell may move, as a token says it.
pub open spec fn spec_cell_type(toks: Tokens) -> Result<(CellType, Tokens), Error> {
    match spec_token(toks) {
        Err(e) => Err(e),
        Ok((t, rest)) => if t == "Movable".spec_bytes() {
            Ok((CellType::Movable, rest))
        } else if t == "Fixed".spec_bytes() {
            Ok((CellType::Fixed, rest))
        } else {
            Err(Error::SyntaxError { expected: "Fixed" })
        },
    }
}

/// The number of pins of the cells read so far.
pub open spec fn pins_so_far(ends: Seq<usize>) -> int {
    first_pin(ends, ends.len() as int)
}

/// The cells, and the ends of their runs of pins, after record `idx` of the cell section: the
/// cell's name must be that of `idx`, its master cell must be known, and it gets the next
/// pin indices, one for each pin of its master cell.
pub open spec fn spec_cell(
    state: (Seq<CellView>, Seq<usize>),
    toks: Tokens,
    mastercells: Seq<MasterCellView>,
    idx: int,
) -> Result<((Seq<CellView>, Seq<usize>), Tokens), Error> {
    match spec_expect(toks, "CellInst") {
        Err(e) => Err(e),
        Ok(t1) => match spec_name(t1, Cell::spec_prefix()) {
            Err(e) => Err(e),
            Ok((id, t2)) => if id != idx {
                Err(Error::Corrupt)
            } else {
                match spec_name(t2, MasterCell::spec_prefix()) {
                    Err(e) => Err(e),
                    Ok((mc, t3)) => match spec_usize(t3) {
                        Err(e) => Err(e),
                        Ok((row, t4)) => match spec_usize(t4) {
                            Err(e) => Err(e),
                            Ok((col, t5)) => match spec_cell_type(t5) {
                                Err(e) => Err(e),
                                Ok((movable, t6)) => if mc >= mastercells.len() {
                                    Err(Error::Corrupt)
                                } else {
                                    let first = pins_so_far(state.1);
                                    let count = mastercells[mc as int].pins.len();
                                    if first + count > usize::MAX {
                                        Err(Error::Corrupt)
                                    } else {
                                        Ok(
                                            (
                                                (
                                                    state.0.push(
                                                        CellView {
                                                            id,
                                                            movable,
                                                            moved: false,
                                                            position: Pair(row, col),
                                                            pins: Seq::new(
                                                                count,
                                                                |i: int| (first + i) as usize,
                                                            ),
                                                        },
                                                    ),
                                                    state.1.push((first + count) as usize),
                                                ),
                                                t6,
                                            ),
                                        )
                                    }
                                },
                            },
                        },
                    },
                }
            },
        },
    }
}

/// One more cell read onto the cells so far.
pub open spec fn cell_step(mastercells: Seq<MasterCellView>) -> spec_fn(
    (Seq<CellView>, Seq<usize>),
    Tokens,
    int,
) -> Result<((Seq<CellView>, Seq<usize>), Tokens), Error> {
    |acc: (Seq<CellView>, Seq<usize>), toks: Tokens, idx: int|
        spec_cell(acc, toks, mastercells, idx)
}

/// The cell section: the count, then that many cells.
pub open spec fn spec_cells(toks: Tokens, mastercells: Seq<MasterCellView>) -> Result<
    ((Seq<CellView>, Seq<usize>), Tokens),
    Error,
> {
    match spec_expect(toks, "NumCellInst") {
        Err(e) => Err(e),
        Ok(t1) => match spec_usize(t1) {
            Err(e) => Err(e),
            Ok((count, t2)) => repeat(
                cell_step(mastercells),
                (Seq::empty(), Seq::empty()),
                t2,
                count as int,
            ),
        },
    }
}

/// Reads whether a cell may move.
pub fn parse_cell_type(reader: &mut Reader) -> (res: Result<CellType, Error>)
    requires
        old(reader).wf(),
    ensures
        final(reader).wf(),
        match spec_cell_type(old(reader)@) {
            Ok((v, rest)) => res == Ok::<CellType, Error>(v) && final(reader)@ == rest,
            Err(e) => res == Err::<CellType, Error>(e),
        },
{
    let token = reader.take_token()?;
    proof {
        assert(token@.subrange(0, token@.len() as int) =~= token@);
    }
    if slice_is(token, 0, token.len(), "Movable") {
        Ok(CellType::Movable)
    } else if slice_is(token, 0, token.len(), "Fixed") {
        Ok(CellType::Fixed)
    } else {
        Err(Error::SyntaxError { expected: "Fixed" })
    }
}

/// The pin indices `first`, `first + 1`, .., `count` of them.
pub fn pin_run(first: usize, count: usize) -> (pins: Vec<usize>)
    requires
        first + count <= usize::MAX,
    ensures
        pins@ == Seq::new(count as nat, |i: int| (first + i) as usize),
{
    let mut pins: Vec<usize> = Vec::new();
    let mut i: usize = 0;
    while i < count
        invariant
            0 <= i <= count,
            first + count <= usize::MAX,
            pins@ == Seq::new(i as nat, |k: int| (first + k) as usize),
        decreases count - i,
    {
        pins.push(first + i);
        proof {
            assert(pins@ =~= Seq::new((i + 1) as nat, |k: int| (first + k) as usize));
        }
        i += 1;
    }
    pins
}

/// Reads record `idx` of the cell section onto `cells` and `pin_ends`.
pub fn parse_cell(
    reader: &mut Reader,
    mastercells: &Vec<MasterCell>,
    cells: &mut Vec<Cell>,
    pin_ends: &mut Vec<usize>,
    idx: usize,
) -> (res: Result<(), Error>)
    requires
        old(reader).wf(),
        cells_ok(views(old(cells)@), old(pin_ends)@),
        idx == old(cells)@.len(),
    ensures
        final(reader).wf(),
        match spec_cell(
            (views(old(cells)@), old(pin_ends)@),
            old(reader)@,
            views(mastercells@),
            idx as int,
        ) {
            Ok((v, rest)) => res is Ok && (views(final(cells)@), final(pin_ends)@) == v && final(reader)@ == rest && cells_ok(v.0, v.1),
            Err(e) => res == Err::<(), Error>(e) && final(cells)@ == old(cells)@ && final(pin_ends)@ == old(pin_ends)@,
        },
{
    reader.expect("CellInst")?;
    let id = read_name::<Cell>(reader)?;
    if id != idx {
        return Err(Error::Corrupt);
    }
    let mc = read_name::<MasterCell>(reader)?;
    let row = reader.take_usize()?;
    let col = reader.take_usize()?;
    let movable = parse_cell_type(reader)?;
    if mc >= mastercells.len() {
        return Err(Error::Corrupt);
    }
    let ghost old_cells = cells@;
    let ghost old_ends = pin_ends@;
    let first: usize = if pin_ends.len() == 0 {
        0
    } else {
        pin_ends[pin_ends.len() - 1]
    };
    let count = mastercells[mc].pins.len();
    proof {
        assert(views(mastercells@)[mc as int].pins == mastercells@[mc as int].pins@);
    }
    let end = match first.checked_add(count) {
        Some(end) => end,
        None => {
            return Err(Error::Corrupt);
        },
    };
    let pins = pin_run(first, count);
    let cell = Cell { id, movable, moved: false, position: Pair(row, col), pins };
    cells.push(cell);
    pin_ends.push(end);
    proof {
        lemma_views_push(old_cells, cell);
        let cv = views(cells@);
        let ends = pin_ends@;
        assert forall|k: int| 0 <= k < cv.len() implies #[trigger] cell_ok(cv, ends, k) by {
            if k < idx {
                assert(cell_ok(views(old_cells), old_ends, k));
                assert(cv[k] == views(old_cells)[k]);
                assert(first_pin(ends, k) == first_pin(old_ends, k));
            } else {
                assert(first_pin(ends, k) == first);
            }
        }
    }
    Ok(())
}

/// Reads the cell section.
pub fn parse_cells(reader: &mut Reader, mastercells: &Vec<MasterCell>) -> (res: Result<
    (Vec<Cell>, Vec<usize>),
    Error,
>)
    requires
        old(reader).wf(),
    ensures
        final(reader).wf(),
        match spec_cells(old(reader)@, views(mastercells@)) {
            Ok((v, rest)) => res is Ok && (views(res->Ok_0.0@), res->Ok_0.1@) == v && final(reader)@ == rest && cells_ok(v.0, v.1),
            Err(e) => res == Err::<(Vec<Cell>, Vec<usize>), Error>(e),
        },
{
    reader.expect("NumCellInst")?;
    let count = reader.take_usize()?;
    let ghost start = reader@;
    let ghost step = cell_step(views(mastercells@));
    let ghost init = (Seq::<CellView>::empty(), Seq::<usize>::empty());
    let mut cells: Vec<Cell> = Vec::new();
    let mut pin_ends: Vec<usize> = Vec::new();
    let mut idx: usize = 0;
    proof {
        assert(views(cells@) =~= Seq::<CellView>::empty());
    }
    while idx < count
        invariant
            reader.wf(),
            0 <= idx <= count,
            idx == cells@.len(),
            step == cell_step(views(mastercells@)),
            init == (Seq::<CellView>::empty(), Seq::<usize>::empty()),
            cells_ok(views(cells@), pin_ends@),
            spec_cells(old(reader)@, views(mastercells@)) == repeat(step, init, start, count as int),
            repeat(step, init, start, idx as int) == Ok::<
                ((Seq<CellView>, Seq<usize>), Tokens),
                Error,
            >(((views(cells@), pin_ends@), reader@)),
        decreases count - idx,
    {
        match parse_cell(reader, mastercells, &mut cells, &mut pin_ends, idx) {
            Ok(()) => {},
            Err(e) => {
                proof {
                    assert(repeat(step, init, start, idx + 1) == Err::<
                        ((Seq<CellView>, Seq<usize>), Tokens),
                        Error,
                    >(e));
                    lemma_repeat_error(step, init, start, idx + 1, count as int);
                }
                return Err(e);
            },
        }
        idx += 1;
    }
    Ok((cells, pin_ends))
}

/// What the builder takes for one net: its id, its lowest routing layer, its connected pins,
/// each with its position, and its routed segments.
#[derive(Debug)]
pub struct NetInput {
    pub id: usize,
    pub min_layer: usize,
    pub pins: Vec<(usize, Pair<usize>)>,
    pub segments: Vec<Route<usize>>,
}

/// The input of one net as a mathematical value.
pub struct NetInputView {
    pub id: usize,
    pub min_layer: usize,
    pub pins: Seq<(usize, Pair<usize>)>,
    pub segments: Seq<Route<usize>>,
}

impl View for NetInput {
    type V = NetInputView;

    open spec fn view(&self) -> NetInputView {
        NetInputView {
            id: self.id,
            min_layer: self.min_layer,
            pins: self.pins@,
            segments: self.segments@,
        }
    }
}

/// The first index from `from` on that holds a `/`; the length where there is none.
pub open spec fn slash_from(t: Seq<u8>, from: int) -> int
    decreases t.len() - from,
{
    if 0 <= from < t.len() && t[from] != 47 {
        slash_from(t, from + 1)
    } else {
        from
    }
}

/// The cell and the pin ordinal that a token of the form `<cell>/<pin>` names; the token
/// must hold exactly one `/`.
pub open spec fn spec_pin_ref(t: Seq<u8>) -> Result<(usize, usize), Error> {
    let at = slash_from(t, 0);
    if at >= t.len() || slash_from(t, at + 1) < t.len() {
        Err(Error::MalformedName)
    } else {
        match decode_name(Cell::spec_prefix(), t.subrange(0, at)) {
            Err(e) => Err(e),
            Ok(cell) => match decode_name(
                MasterPin::spec_prefix(),
                t.subrange(at + 1, t.len() as int),
            ) {
                Err(e) => Err(e),
                Ok(pin) => Ok((cell, pin)),
            },
        }
    }
}

/// The pins of a net after one more pin record: the pin that the record names, with the
/// position of its cell. The cell must be known and have a pin of that ordinal.
pub open spec fn spec_net_pin(
    pins: Seq<(usize, Pair<usize>)>,
    toks: Tokens,
    cells: Seq<CellView>,
) -> Result<(Seq<(usize, Pair<usize>)>, Tokens), Error> {
    match spec_expect(toks, "Pin") {
        Err(e) => Err(e),
        Ok(t1) => match spec_token(t1) {
            Err(e) => Err(e),
            Ok((t, t2)) => match spec_pin_ref(t) {
                Err(e) => Err(e),
                Ok((cell, pin)) => if cell >= cells.len() || pin >= cells[cell as int].pins.len() {
                    Err(Error::Corrupt)
                } else {
                    Ok(
                        (
                            pins.push(
                                (cells[cell as int].pins[pin as int], cells[cell as int].position),
                            ),
                            t2,
                        ),
                    )
                },
            },
        },
    }
}

/// One more pin record read onto the pins of a net.
pub open spec fn net_pin_step(cells: Seq<CellView>) -> spec_fn(
    Seq<(usize, Pair<usize>)>,
    Tokens,
    int,
) -> Result<(Seq<(usize, Pair<usize>)>, Tokens), Error> {
    |acc: Seq<(usize, Pair<usize>)>, toks: Tokens, idx: int| spec_net_pin(acc, toks, cells)
}

/// The lowest routing layer that a token names: `NoCstr` for none, else a layer's name.
pub open spec fn spec_min_layer(toks: Tokens) -> Result<(usize, Tokens), Error> {
    match spec_token(toks) {
        Err(e) => Err(e),
        Ok((t, rest)) => if t == "NoCstr".spec_bytes() {
            Ok((0usize, rest))
        } else {
            match decode_name(Layer::spec_prefix(), t) {
                Err(e) => Err(e),
                Ok(layer) => Ok((layer, rest)),
            }
        },
    }
}

/// The net that record `idx` of the net section declares, still without segments: its name
/// must be that of `idx`.
pub open spec fn spec_net(toks: Tokens, cells: Seq<CellView>, idx: int) -> Result<
    (NetInputView, Tokens),
    Error,
> {
    match spec_expect(toks, "Net") {
        Err(e) => Err(e),
        Ok(t1) => match spec_name(t1, Net::spec_prefix()) {
            Err(e) => Err(e),
            Ok((id, t2)) => if id != idx {
                Err(Error::Corrupt)
            } else {
                match spec_usize(t2) {
                    Err(e) => Err(e),
                    Ok((num_pins, t3)) => match spec_min_layer(t3) {
                        Err(e) => Err(e),
                        Ok((min_layer, t4)) => match repeat(
                            net_pin_step(cells),
                            Seq::empty(),
                            t4,
                            num_pins as int,
                        ) {
                            Err(e) => Err(e),
                            Ok((pins, t5)) => Ok(
                                (NetInputView { id, min_layer, pins, segments: Seq::empty() }, t5),
                            ),
                        },
                    },
                }
            },
        },
    }
}

/// One more net read onto the nets so far.
pub open spec fn net_step(cells: Seq<CellView>) -> spec_fn(Seq<NetInputView>, Tokens, int) -> Result<
    (Seq<NetInputView>, Tokens),
    Error,
> {
    |acc: Seq<NetInputView>, toks: Tokens, idx: int|
        match spec_net(toks, cells, idx) {
            Err(e) => Err(e),
            Ok((net, rest)) => Ok((acc.push(net), rest)),
        }
}

/// The net section: the count, then that many nets.
pub open spec fn spec_nets(toks: Tokens, cells: Seq<CellView>) -> Result<
    (Seq<NetInputView>, Tokens),
    Error,
> {
    match spec_expect(toks, "NumNets") {
        Err(e) => Err(e),
        Ok(t1) => match spec_usize(t1) {
            Err(e) => Err(e),
            Ok((count, t2)) => repeat(net_step(cells), Seq::empty(), t2, count as int),
        },
    }
}

/// Every net has its place in the list for its id, and every segment of every net has
/// exactly one coordinate that differs between its ends.
pub open spec fn nets_ok(nets: Seq<NetInputView>) -> bool {
    &&& forall|i: int| 0 <= i < nets.len() ==> (#[trigger] nets[i]).id == i
    &&& forall|i: int, m: int|
        0 <= i < nets.len() && 0 <= m < nets[i].segments.len() ==> (
        #[trigger] nets[i].segments[m]).axis_aligned()
}

/// The nets after one more record of the route section: the segment goes to the net that the
/// record names. The net must be known, and the segment must run along one axis.
pub open spec fn spec_route(nets: Seq<NetInputView>, toks: Tokens) -> Result<
    (Seq<NetInputView>, Tokens),
    Error,
> {
    match spec_usize(toks) {
        Err(e) => Err(e),
        Ok((srow, t1)) => match spec_usize(t1) {
            Err(e) => Err(e),
            Ok((scol, t2)) => match spec_usize(t2) {
                Err(e) => Err(e),
                Ok((slay, t3)) => match spec_usize(t3) {
                    Err(e) => Err(e),
                    Ok((erow, t4)) => match spec_usize(t4) {
                        Err(e) => Err(e),
                        Ok((ecol, t5)) => match spec_usize(t5) {
                            Err(e) => Err(e),
                            Ok((elay, t6)) => match spec_name(t6, Net::spec_prefix()) {
                                Err(e) => Err(e),
                                Ok((net, t7)) => {
                                    let route = Route(
                                        Point(srow, scol, slay),
                                        Point(erow, ecol, elay),
                                    );
                                    if net >= nets.len() || !route.axis_aligned() {
                                        Err(Error::Corrupt)
                                    } else {
                                        Ok(
                                            (
                                                nets.update(
                                                    net as int,
                                                    NetInputView {
                                                        segments: nets[net as int].segments.push(
                                                            route,
                                                        ),
                                                        ..nets[net as int]
                                                    },
                                                ),
                                                t7,
                                            ),
                                        )
                                    }
                                },
                            },
                        },
                    },
                },
            },
        },
    }
}

/// One more record of the route section read onto the nets.
pub open spec fn route_step() -> spec_fn(Seq<NetInputView>, Tokens, int) -> Result<
    (Seq<NetInputView>, Tokens),
    Error,
> {
    |acc: Seq<NetInputView>, toks: Tokens, idx: int| spec_route(acc, toks)
}

/// The route section: the count, then that many segments.
pub open spec fn spec_routes(toks: Tokens, nets: Seq<NetInputView>) -> Result<
    (Seq<NetInputView>, Tokens),
    Error,
> {
    match spec_expect(toks, "NumRoutes") {
        Err(e) => Err(e),
        Ok(t1) => match spec_usize(t1) {
            Err(e) => Err(e),
            Ok((count, t2)) => repeat(route_step(), nets, t2, count as int),
        },
    }
}

/// The first index from `from` on that holds a `/`; the length where there is none.
pub fn find_slash(t: &[u8], from: usize) -> (at: usize)
    requires
        from <= t@.len(),
    ensures
        at == slash_from(t@, from as int),
        from <= at <= t@.len(),
{
    let mut at = from;
    while at < t.len() && t[at] != 47
        invariant
            from <= at <= t@.len(),
            slash_from(t@, from as int) == slash_from(t@, at as int),
        decreases t@.len() - at,
    {
        at += 1;
    }
    at
}

/// Reads a token of the form `<cell>/<pin>`.
pub fn parse_pin_ref(t: &[u8]) -> (res: Result<(usize, usize), Error>)
    ensures
        res == spec_pin_ref(t@),
{
    let at = find_slash(t, 0);
    if at >= t.len() {
        return Err(Error::MalformedName);
    }
    let next = find_slash(t, at + 1);
    if next < t.len() {
        return Err(Error::MalformedName);
    }
    let cell_prefix = Cell::prefix();
    let pin_prefix = MasterPin::prefix();
    proof {
        lemma_text_bytes(cell_prefix, Cell::spec_prefix());
        lemma_text_bytes(pin_prefix, MasterPin::spec_prefix());
    }
    let cell = decode_bytes(cell_prefix, t, 0, at)?;
    let pin = decode_bytes(pin_prefix, t, at + 1, t.len())?;
    Ok((cell, pin))
}

/// The position of the cell that owns pin `pin`, looked up through the ends of the cells' runs
/// of pins.
pub fn pin_position(cells: &Vec<Cell>, pin_ends: &Vec<usize>, pin: usize) -> (res: Option<
    Pair<usize>,
>)
    requires
        cells_ok(views(cells@), pin_ends@),
    ensures
        match res {
            Some(p) => exists|k: int|
                0 <= k < cells@.len() && first_pin(pin_ends@, k) <= pin < pin_ends@[k]
                    && #[trigger] cells@[k].position == p,
            None => pin >= pins_so_far(pin_ends@),
        },
{
    proof {
        assert forall|i: int, j: int| 0 <= i <= j < pin_ends@.len() implies pin_ends@[i]
            <= pin_ends@[j] by {
            lemma_ends_nondecreasing(views(cells@), pin_ends@, i, j);
        }
    }
    match pin_cell(pin_ends, pin) {
        Some(k) => Some(cells[k].position),
        None => None,
    }
}

/// Pins that two cells both own do not exist: a pin within the run of cell `a` and within
/// the run of cell `b` makes `a` and `b` the same cell.
pub proof fn lemma_pin_owner(cells: Seq<CellView>, ends: Seq<usize>, a: int, b: int, pin: int)
    requires
        cells_ok(cells, ends),
        0 <= a < cells.len(),
        0 <= b < cells.len(),
        first_pin(ends, a) <= pin < ends[a],
        first_pin(ends, b) <= pin < ends[b],
    ensures
        a == b,
{
    if a < b {
        lemma_ends_nondecreasing(cells, ends, a, b - 1);
    } else if b < a {
        lemma_ends_nondecreasing(cells, ends, b, a - 1);
    }
}

/// Reads one pin record of a net onto `pins`.
pub fn parse_net_pin(
    reader: &mut Reader,
    cells: &Vec<Cell>,
    pin_ends: &Vec<usize>,
    pins: &mut Vec<(usize, Pair<usize>)>,
) -> (res: Result<(), Error>)
    requires
        old(reader).wf(),
        cells_ok(views(cells@), pin_ends@),
    ensures
        final(reader).wf(),
        match spec_net_pin(old(pins)@, old(reader)@, views(cells@)) {
            Ok((v, rest)) => res is Ok && final(pins)@ == v && final(reader)@ == rest,
            Err(e) => res == Err::<(), Error>(e) && final(pins)@ == old(pins)@,
        },
{
    reader.expect("Pin")?;
    let token = reader.take_token()?;
    let (cell, ordinal) = parse_pin_ref(token)?;
    if cell >= cells.len() {
        return Err(Error::Corrupt);
    }
    proof {
        assert(views(cells@)[cell as int] == cells@[cell as int]@);
        assert(cell_ok(views(cells@), pin_ends@, cell as int));
    }
    if ordinal >= cells[cell].pins.len() {
        return Err(Error::Corrupt);
    }
    let pin = cells[cell].pins[ordinal];
    let position = match pin_position(cells, pin_ends, pin) {
        Some(p) => p,
        None => cells[cell].position,
    };
    proof {
        let cv = views(cells@);
        assert(cv[cell as int].pins[ordinal as int] == first_pin(pin_ends@, cell as int) + ordinal);
        if pin < pins_so_far(pin_ends@) {
            let k = choose|k: int|
                0 <= k < cells@.len() && first_pin(pin_ends@, k) <= pin < pin_ends@[k]
                    && #[trigger] cells@[k].position == position;
            lemma_pin_owner(cv, pin_ends@, k, cell as int, pin as int);
        } else {
            lemma_ends_nondecreasing(cv, pin_ends@, cell as int, pin_ends@.len() - 1);
        }
    }
    pins.push((pin, position));
    Ok(())
}

/// Reads `count` pin records of a net.
pub fn parse_net_pins(reader: &mut Reader, cells: &Vec<Cell>, pin_ends: &Vec<usize>, count: usize) -> (res:
    Result<Vec<(usize, Pair<usize>)>, Error>)
    requires
        old(reader).wf(),
        cells_ok(views(cells@), pin_ends@),
    ensures
        final(reader).wf(),
        match repeat(net_pin_step(views(cells@)), Seq::empty(), old(reader)@, count as int) {
            Ok((v, rest)) => res is Ok && res->Ok_0@ == v && final(reader)@ == rest,
            Err(e) => res == Err::<Vec<(usize, Pair<usize>)>, Error>(e),
        },
{
    let ghost start = reader@;
    let ghost step = net_pin_step(views(cells@));
    let mut pins: Vec<(usize, Pair<usize>)> = Vec::new();
    let mut k: usize = 0;
    while k < count
        invariant
            reader.wf(),
            cells_ok(views(cells@), pin_ends@),
            0 <= k <= count,
            step == net_pin_step(views(cells@)),
            start == old(reader)@,
            repeat(step, Seq::empty(), start, k as int) == Ok::<
                (Seq<(usize, Pair<usize>)>, Tokens),
                Error,
            >((pins@, reader@)),
        decreases count - k,
    {
        match parse_net_pin(reader, cells, pin_ends, &mut pins) {
            Ok(()) => {},
            Err(e) => {
                proof {
                    assert(repeat(step, Seq::empty(), start, k + 1) == Err::<
                        (Seq<(usize, Pair<usize>)>, Tokens),
                        Error,
                    >(e));
                    lemma_repeat_error(step, Seq::empty(), start, k + 1, count as int);
                }
                return Err(e);
            },
        }
        k += 1;
    }
    Ok(pins)
}

/// Reads the lowest routing layer of a net.
pub fn parse_min_layer(reader: &mut Reader) -> (res: Result<usize, Error>)
    requires
        old(reader).wf(),
    ensures
        final(reader).wf(),
        match spec_min_layer(old(reader)@) {
            Ok((v, rest)) => res == Ok::<usize, Error>(v) && final(reader)@ == rest,
            Err(e) => res == Err::<usize, Error>(e),
        },
{
    let token = reader.take_token()?;
    proof {
        assert(token@.subrange(0, token@.len() as int) =~= token@);
    }
    if slice_is(token, 0, token.len(), "NoCstr") {
        Ok(0)
    } else {
        name_id::<Layer>(token)
    }
}

/// Reads record `idx` of the net section.
pub fn parse_net(reader: &mut Reader, cells: &Vec<Cell>, pin_ends: &Vec<usize>, idx: usize) -> (res:
    Result<NetInput, Error>)
    requires
        old(reader).wf(),
        cells_ok(views(cells@), pin_ends@),
    ensures
        final(reader).wf(),
        match spec_net(old(reader)@, views(cells@), idx as int) {
            Ok((v, rest)) => res is Ok && res->Ok_0@ == v && final(reader)@ == rest,
            Err(e) => res == Err::<NetInput, Error>(e),
        },
        res matches Ok(net) ==> net.id == idx && net.segments@.len() == 0,
{
    reader.expect("Net")?;
    let id = read_name::<Net>(reader)?;
    if id != idx {
        return Err(Error::Corrupt);
    }
    let num_pins = reader.take_usize()?;
    let min_layer = parse_min_layer(reader)?;
    let pins = parse_net_pins(reader, cells, pin_ends, num_pins)?;
    Ok(NetInput { id, min_layer, pins, segments: Vec::new() })
}

/// Reads the net section.
pub fn parse_nets(reader: &mut Reader, cells: &Vec<Cell>, pin_ends: &Vec<usize>) -> (res: Result<
    Vec<NetInput>,
    Error,
>)
    requires
        old(reader).wf(),
        cells_ok(views(cells@), pin_ends@),
    ensures
        final(reader).wf(),
        match spec_nets(old(reader)@, views(cells@)) {
            Ok((v, rest)) => res is Ok && views(res->Ok_0@) == v && final(reader)@ == rest
                && nets_ok(v),
            Err(e) => res == Err::<Vec<NetInput>, Error>(e),
        },
{
    reader.expect("NumNets")?;
    let count = reader.take_usize()?;
    let ghost start = reader@;
    let ghost step = net_step(views(cells@));
    let mut nets: Vec<NetInput> = Vec::new();
    let mut idx: usize = 0;
    proof {
        assert(views(nets@) =~= Seq::<NetInputView>::empty());
    }
    while idx < count
        invariant
            reader.wf(),
            cells_ok(views(cells@), pin_ends@),
            0 <= idx <= count,
            step == net_step(views(cells@)),
            idx == nets@.len(),
            nets_ok(views(nets@)),
            spec_nets(old(reader)@, views(cells@)) == repeat(step, Seq::empty(), start, count as int),
            repeat(step, Seq::empty(), start, idx as int) == Ok::<
                (Seq<NetInputView>, Tokens),
                Error,
            >((views(nets@), reader@)),
        decreases count - idx,
    {
        let ghost before = nets@;
        match parse_net(reader, cells, pin_ends, idx) {
            Ok(net) => {
                nets.push(net);
                proof {
                    lemma_views_push(before, net);
                    let v = views(nets@);
                    assert forall|i: int| 0 <= i < v.len() implies (#[trigger] v[i]).id == i by {
                        if i < before.len() {
                            assert(v[i] == views(before)[i]);
                        }
                    }
                    assert forall|i: int, m: int|
                        0 <= i < v.len() && 0 <= m < v[i].segments.len() implies (
                    #[trigger] v[i].segments[m]).axis_aligned() by {
                        if i < before.len() {
                            assert(v[i] == views(before)[i]);
                        }
                    }
                }
            },
            Err(e) => {
                proof {
                    assert(repeat(step, Seq::empty(), start, idx + 1) == Err::<
                        (Seq<NetInputView>, Tokens),
                        Error,
                    >(e));
                    lemma_repeat_error(step, Seq::empty(), start, idx + 1, count as int);
                }
                return Err(e);
            },
        }
        idx += 1;
    }
    Ok(nets)
}

/// Reads one record of the route section and adds its segment to its net.
pub fn parse_route(reader: &mut Reader, nets: &mut Vec<NetInput>) -> (res: Result<(), Error>)
    requires
        old(reader).wf(),
        nets_ok(views(old(nets)@)),
    ensures
        final(reader).wf(),
        match spec_route(views(old(nets)@), old(reader)@) {
            Ok((v, rest)) => res is Ok && views(final(nets)@) == v && final(reader)@ == rest
                && nets_ok(v),
            Err(e) => res == Err::<(), Error>(e) && final(nets)@ == old(nets)@,
        },
{
    let srow = reader.take_usize()?;
    let scol = reader.take_usize()?;
    let slay = reader.take_usize()?;
    let erow = reader.take_usize()?;
    let ecol = reader.take_usize()?;
    let elay = reader.take_usize()?;
    let net = read_name::<Net>(reader)?;
    let route = Route(Point(srow, scol, slay), Point(erow, ecol, elay));
    if net >= nets.len() || !route.is_axis_aligned() {
        return Err(Error::Corrupt);
    }
    let ghost before = nets@;
    nets[net].segments.push(route);
    proof {
        assert(views(before)[net as int] == before[net as int]@);
        lemma_views_update(before, net as int, nets@[net as int]);
        assert(nets@ =~= before.update(net as int, nets@[net as int]));
        let v = views(nets@);
        assert forall|i: int| 0 <= i < v.len() implies (#[trigger] v[i]).id == i by {
            assert(views(before)[i].id == i);
        }
        assert forall|i: int, m: int|
            0 <= i < v.len() && 0 <= m < v[i].segments.len() implies (
        #[trigger] v[i].segments[m]).axis_aligned() by {
            if i != net {
                assert(v[i] == views(before)[i]);
            } else if m < before[net as int].segments@.len() {
                assert(v[i].segments[m] == views(before)[i].segments[m]);
            }
        }
    }
    Ok(())
}

/// Reads the route section and adds its segments to `nets`.
pub fn parse_routes(reader: &mut Reader, nets: &mut Vec<NetInput>) -> (res: Result<(), Error>)
    requires
        old(reader).wf(),
        nets_ok(views(old(nets)@)),
    ensures
        final(reader).wf(),
        match spec_routes(old(reader)@, views(old(nets)@)) {
            Ok((v, rest)) => res is Ok && views(final(nets)@) == v && final(reader)@ == rest
                && nets_ok(v),
            Err(e) => res == Err::<(), Error>(e),
        },
{
    reader.expect("NumRoutes")?;
    let count = reader.take_usize()?;
    let ghost start = reader@;
    let ghost init = views(nets@);
    let ghost step = route_step();
    let mut idx: usize = 0;
    while idx < count
        invariant
            reader.wf(),
            0 <= idx <= count,
            step == route_step(),
            nets_ok(views(nets@)),
            spec_routes(old(reader)@, views(old(nets)@)) == repeat(step, init, start, count as int),
            repeat(step, init, start, idx as int) == Ok::<(Seq<NetInputView>, Tokens), Error>(
                (views(nets@), reader@),
            ),
        decreases count - idx,
    {
        match parse_route(reader, nets) {
            Ok(()) => {},
            Err(e) => {
                proof {
                    assert(repeat(step, init, start, idx + 1) == Err::<
                        (Seq<NetInputView>, Tokens),
                        Error,
                    >(e));
                    lemma_repeat_error(step, init, start, idx + 1, count as int);
                }
                return Err(e);
            },
        }
        idx += 1;
    }
    Ok(())
}

/// What a description file declares, before any net is built.
#[derive(Debug)]
pub struct Description {
    pub max_move: usize,
    pub dim: Pair<usize>,
    pub layers: Vec<Layer>,
    pub mastercells: Vec<MasterCell>,
    pub conflicts: Vec<(usize, Conflict)>,
    pub cells: Vec<Cell>,
    pub pin_ends: Vec<usize>,
    pub nets: Vec<NetInput>,
}

/// A description as a mathematical value.
pub struct DescriptionView {
    pub max_move: usize,
    pub dim: Pair<usize>,
    pub layers: Seq<LayerView>,
    pub mastercells: Seq<MasterCellView>,
    pub conflicts: Seq<(usize, Conflict)>,
    pub cells: Seq<CellView>,
    pub pin_ends: Seq<usize>,
    pub nets: Seq<NetInputView>,
}

impl View for Description {
    type V = DescriptionView;

    open spec fn view(&self) -> DescriptionView {
        DescriptionView {
            max_move: self.max_move,
            dim: self.dim,
            layers: views(self.layers@),
            mastercells: views(self.mastercells@),
            conflicts: self.conflicts@,
            cells: views(self.cells@),
            pin_ends: self.pin_ends@,
            nets: views(self.nets@),
        }
    }
}

/// What holds of the state before any record, and of the state after a record where it holds
/// of the state before it, holds of the state after `k` records.
pub proof fn lemma_repeat_keeps<S>(
    step: spec_fn(S, Tokens, int) -> Result<(S, Tokens), Error>,
    init: S,
    toks: Tokens,
    k: int,
    kept: spec_fn(S, int) -> bool,
)
    requires
        0 <= k,
        kept(init, 0),
        forall|s: S, t: Tokens, i: int|
            0 <= i && kept(s, i) && (#[trigger] step(s, t, i)) is Ok ==> kept(
                step(s, t, i)->Ok_0.0,
                i + 1,
            ),
        repeat(step, init, toks, k) is Ok,
    ensures
        kept(repeat(step, init, toks, k)->Ok_0.0, k),
    decreases k,
{
    if k > 0 {
        lemma_repeat_keeps(step, init, toks, k - 1, kept);
    }
}

/// No two pins have the same id.
pub open spec fn unique_pins(pins: Seq<MasterPin>) -> bool {
    forall|i: int, j: int|
        0 <= i < j < pins.len() ==> (#[trigger] pins[i]).id != (#[trigger] pins[j]).id
}

/// No two blockages have the same id.
pub open spec fn unique_blockages(blkgs: Seq<Blockage>) -> bool {
    forall|i: int, j: int|
        0 <= i < j < blkgs.len() ==> (#[trigger] blkgs[i]).id != (#[trigger] blkgs[j]).id
}

/// Every master cell has its place in the list for its id, and within a master cell no two
/// pins and no two blockages have the same id.
pub open spec fn master_cells_ok(cells: Seq<MasterCellView>) -> bool {
    forall|i: int|
        0 <= i < cells.len() ==> {
            &&& (#[trigger] cells[i]).id == i
            &&& unique_pins(cells[i].pins)
            &&& unique_blockages(cells[i].blkgs)
        }
}

/// The pin records of a master cell leave no two pins with the same id.
pub proof fn lemma_master_pins(toks: Tokens, k: int)
    requires
        0 <= k,
        repeat(master_pin_step(), Seq::empty(), toks, k) is Ok,
    ensures
        unique_pins(repeat(master_pin_step(), Seq::empty(), toks, k)->Ok_0.0),
{
    let kept = |pins: Seq<MasterPin>, i: int| unique_pins(pins);
    let step = master_pin_step();
    assert forall|s: Seq<MasterPin>, t: Tokens, i: int|
        0 <= i && kept(s, i) && (#[trigger] step(s, t, i)) is Ok implies kept(
        step(s, t, i)->Ok_0.0,
        i + 1,
    ) by {
        let after = step(s, t, i)->Ok_0.0;
        assert(after.len() == s.len() + 1);
        assert(!has_pin(s, after[s.len() as int].id));
        assert forall|a: int, b: int| 0 <= a < b < after.len() implies (#[trigger] after[a]).id != (
        #[trigger] after[b]).id by {
            if b < s.len() {
                assert(after[a] == s[a] && after[b] == s[b]);
            } else {
                assert(after[a] == s[a]);
            }
        }
    }
    lemma_repeat_keeps(step, Seq::empty(), toks, k, kept);
}

/// The blockage records of a master cell leave no two blockages with the same id.
pub proof fn lemma_blockages(toks: Tokens, k: int)
    requires
        0 <= k,
        repeat(blockage_step(), Seq::empty(), toks, k) is Ok,
    ensures
        unique_blockages(repeat(blockage_step(), Seq::empty(), toks, k)->Ok_0.0),
{
    let kept = |blkgs: Seq<Blockage>, i: int| unique_blockages(blkgs);
    let step = blockage_step();
    assert forall|s: Seq<Blockage>, t: Tokens, i: int|
        0 <= i && kept(s, i) && (#[trigger] step(s, t, i)) is Ok implies kept(
        step(s, t, i)->Ok_0.0,
        i + 1,
    ) by {
        let after = step(s, t, i)->Ok_0.0;
        assert(after.len() == s.len() + 1);
        assert(!has_blockage(s, after[s.len() as int].id));
        assert forall|a: int, b: int| 0 <= a < b < after.len() implies (#[trigger] after[a]).id != (
        #[trigger] after[b]).id by {
            if b < s.len() {
                assert(after[a] == s[a] && after[b] == s[b]);
            } else {
                assert(after[a] == s[a]);
            }
        }
    }
    lemma_repeat_keeps(step, Seq::empty(), toks, k, kept);
}

/// The master cell section leaves every master cell at the place of its id, with pins and
/// blockages of different ids.
pub proof fn lemma_master_cells(toks: Tokens)
    requires
        spec_master_cells(toks) is Ok,
    ensures
        master_cells_ok(spec_master_cells(toks)->Ok_0.0),
{
    let kept = |cells: Seq<MasterCellView>, i: int| cells.len() == i && master_cells_ok(cells);
    let step = master_cell_step();
    assert forall|s: Seq<MasterCellView>, t: Tokens, i: int|
        0 <= i && kept(s, i) && (#[trigger] step(s, t, i)) is Ok implies kept(
        step(s, t, i)->Ok_0.0,
        i + 1,
    ) by {
        let after = step(s, t, i)->Ok_0.0;
        let cell = spec_master_cell(t, i)->Ok_0.0;
        assert(after == s.push(cell));
        let t1 = spec_expect(t, "MasterCell")->Ok_0;
        let t2 = spec_name(t1, MasterCell::spec_prefix())->Ok_0.1;
        let num_pins = spec_usize(t2)->Ok_0.0;
        let t3 = spec_usize(t2)->Ok_0.1;
        let num_blkgs = spec_usize(t3)->Ok_0.0;
        let t4 = spec_usize(t3)->Ok_0.1;
        lemma_master_pins(t4, num_pins as int);
        let t5 = repeat(master_pin_step(), Seq::empty(), t4, num_pins as int)->Ok_0.1;
        lemma_blockages(t5, num_blkgs as int);
        assert forall|j: int| 0 <= j < after.len() implies {
            &&& (#[trigger] after[j]).id == j
            &&& unique_pins(after[j].pins)
            &&& unique_blockages(after[j].blkgs)
        } by {
            if j < s.len() {
                assert(after[j] == s[j]);
            }
        }
    }
    let t1 = spec_expect(toks, "NumMasterCell")->Ok_0;
    let count = spec_usize(t1)->Ok_0.0;
    let t2 = spec_usize(t1)->Ok_0.1;
    lemma_repeat_keeps(step, Seq::empty(), t2, count as int, kept);
}

/// The conflict section leaves no entry twice.
pub proof fn lemma_conflicts(toks: Tokens)
    requires
        spec_conflicts(toks) is Ok,
    ensures
        spec_conflicts(toks)->Ok_0.0.no_duplicates(),
{
    let kept = |list: Seq<(usize, Conflict)>, i: int| list.no_duplicates();
    let step = conflict_step();
    assert forall|s: Seq<(usize, Conflict)>, t: Tokens, i: int|
        0 <= i && kept(s, i) && (#[trigger] step(s, t, i)) is Ok implies kept(
        step(s, t, i)->Ok_0.0,
        i + 1,
    ) by {
        assert forall|list: Seq<(usize, Conflict)>, entry: (usize, Conflict)|
            list.no_duplicates() implies (#[trigger] with_entry(list, entry)).no_duplicates() by {
            if !list.contains(entry) {
                let after = list.push(entry);
                assert forall|a: int, b: int|
                    0 <= a < after.len() && 0 <= b < after.len() && a != b implies after[a]
                    != after[b] by {
                    if a < list.len() {
                        assert(list.contains(list[a]));
                    }
                    if b < list.len() {
                        assert(list.contains(list[b]));
                    }
                }
            }
        }
    }
    let t1 = spec_expect(toks, "NumNeighborCellExtraDemand")->Ok_0;
    let count = spec_usize(t1)->Ok_0.0;
    let t2 = spec_usize(t1)->Ok_0.1;
    lemma_repeat_keeps(step, Seq::empty(), t2, count as int, kept);
}

/// What holds of every description that was read: the layers hold one capacity per grid
/// cell, the master cells and their pins and blockages have ids of their own, no conflict
/// is entered twice, the pins are numbered through the cells, and every segment runs along
/// one axis.
pub open spec fn description_ok(d: DescriptionView) -> bool {
    &&& layers_ok(d.layers)
    &&& master_cells_ok(d.mastercells)
    &&& d.conflicts.no_duplicates()
    &&& cells_ok(d.cells, d.pin_ends)
    &&& nets_ok(d.nets)
}

/// The description that a sequence of tokens stands for: the head, then the sections for
/// layers, supply, master cells, conflicts, cells, nets and routes, and nothing after them.
pub open spec fn spec_description(toks: Tokens) -> Result<DescriptionView, Error> {
    match spec_header(toks) {
        Err(e) => Err(e),
        Ok(((max_move, dim), t1)) => match spec_layers(t1, dim) {
            Err(e) => Err(e),
            Ok((plain, t2)) => match spec_deltas(t2, plain) {
                Err(e) => Err(e),
                Ok((layers, t3)) => match spec_master_cells(t3) {
                    Err(e) => Err(e),
                    Ok((mastercells, t4)) => match spec_conflicts(t4) {
                        Err(e) => Err(e),
                        Ok((conflicts, t5)) => match spec_cells(t5, mastercells) {
                            Err(e) => Err(e),
                            Ok(((cells, pin_ends), t6)) => match spec_nets(t6, cells) {
                                Err(e) => Err(e),
                                Ok((bare, t7)) => match spec_routes(t7, bare) {
                                    Err(e) => Err(e),
                                    Ok((nets, t8)) => match spec_end(t8) {
                                        Err(e) => Err(e),
                                        Ok(_) => Ok(
                                            DescriptionView {
                                                max_move,
                                                dim,
                                                layers,
                                                mastercells,
                                                conflicts,
                                                cells,
                                                pin_ends,
                                                nets,
                                            },
                                        ),
                                    },
                                },
                            },
                        },
                    },
                },
            },
        },
    }
}

/// Reads a description file.
pub fn parse_description(input: &[u8]) -> (res: Result<Description, Error>)
    ensures
        match spec_description(tokens(input@)) {
            Ok(d) => res is Ok && res->Ok_0@ == d && description_ok(d),
            Err(e) => res == Err::<Description, Error>(e),
        },
{
    let mut reader = Reader::new(input);
    let (max_move, dim) = parse_header(&mut reader)?;
    let mut layers = parse_layers(&mut reader, dim)?;
    parse_deltas(&mut reader, &mut layers)?;
    let ghost before_cells = reader@;
    let mastercells = parse_master_cells(&mut reader)?;
    let ghost before_conflicts = reader@;
    let conflicts = parse_conflicts(&mut reader)?;
    proof {
        lemma_master_cells(before_cells);
        lemma_conflicts(before_conflicts);
    }
    let (cells, pin_ends) = parse_cells(&mut reader, &mastercells)?;
    let mut nets = parse_nets(&mut reader, &cells, &pin_ends)?;
    parse_routes(&mut reader, &mut nets)?;
    reader.finish()?;
    Ok(Description { max_move, dim, layers, mastercells, conflicts, cells, pin_ends, nets })
}

} // verus!
