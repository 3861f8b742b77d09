use crate::args::Args;
use crate::consts::{NANOS_PER_SEC, SECS_PER_HR, SECS_PER_MIN};
use crate::components::{
    encode_name, push_name, Cell, CellType, Conflict, FactoryID, Layer, MasterCell, Pair, Route,
};
use crate::error::Error;
use crate::loader::{
    description_ok, layers_ok, master_cells_ok, nets_ok, parse_description, spec_description, views, CellView,
    Description, DescriptionView,
};
use crate::reader::tokens;
use crate::text::{as_text, decimal, lemma_as_text_concat, push_decimal};
use crate::tree::{built_from, connectable, tree_routes, Net, NetTree};
use vstd::prelude::*;
use vstd::string::*;

verus! {

/// The whole description of a chip: grid, layers, master cells, cells and nets.
#[derive(Debug)]
pub struct Chip {
    /// maximum movement count
    pub max_move: usize,
    /// already moved cells
    pub already_moved: usize,
    /// dimensions
    pub dim: Pair<usize>,
    /// organized layers
    pub layers: Vec<Layer>,
    /// organized mastercells
    pub mastercells: Vec<MasterCell>,
    /// all cells
    pub cells: Vec<Cell>,
    /// for every cell the number of pins of the cells up to and including it
    pub pin_ends: Vec<usize>,
    /// all nets
    pub nets: Vec<Net>,
    /// all conflicts: each entry holds a master cell and a demand that it incurs; no entry
    /// occurs twice
    pub conflicts: Vec<(usize, Conflict)>,
}

/// No entry is greater than a later one.
pub open spec fn nondecreasing(a: Seq<usize>) -> bool {
    forall|i: int, j: int| 0 <= i <= j < a.len() ==> a[i] <= a[j]
}

/// The first pin of cell `k`: the number of pins of the cells before it.
pub open spec fn first_pin(ends: Seq<usize>, k: int) -> int {
    if k <= 0 {
        0
    } else {
        ends[k - 1] as int
    }
}

/// Cell `k` has the id `k` and owns the pins from `first_pin(ends, k)` up to `ends[k]`, in
/// order.
pub open spec fn cell_ok(cells: Seq<CellView>, ends: Seq<usize>, k: int) -> bool {
    &&& cells[k].id == k
    &&& first_pin(ends, k) <= ends[k]
    &&& cells[k].pins.len() == ends[k] - first_pin(ends, k)
    &&& forall|i: int|
        0 <= i < cells[k].pins.len() ==> #[trigger] cells[k].pins[i] == first_pin(ends, k) + i
}

/// The pins are numbered through the cells in order: every cell owns a run of pin indices
/// that starts where the run of the cell before it ends.
pub open spec fn cells_ok(cells: Seq<CellView>, ends: Seq<usize>) -> bool {
    &&& ends.len() == cells.len()
    &&& forall|k: int| 0 <= k < cells.len() ==> #[trigger] cell_ok(cells, ends, k)
}

/// With pins numbered through the cells, the ends of the runs do not decrease.
pub proof fn lemma_ends_nondecreasing(cells: Seq<CellView>, ends: Seq<usize>, i: int, j: int)
    requires
        cells_ok(cells, ends),
        0 <= i <= j < ends.len(),
    ensures
        ends[i] <= ends[j],
    decreases j - i,
{
    if i < j {
        lemma_ends_nondecreasing(cells, ends, i, j - 1);
        assert(cell_ok(cells, ends, j));
    }
}

impl Default for Chip {
    fn default() -> (chip: Self)
        ensures
            chip.max_move == 0,
            chip.already_moved == 0,
            chip.dim == Pair(0usize, 0usize),
            chip.layers@.len() == 0,
            chip.mastercells@.len() == 0,
            chip.cells@.len() == 0,
            chip.pin_ends@.len() == 0,
            chip.nets@.len() == 0,
            chip.conflicts@.len() == 0,
    {
        Chip {
            max_move: 0,
            already_moved: 0,
            dim: Pair(0, 0),
            layers: Vec::new(),
            mastercells: Vec::new(),
            cells: Vec::new(),
            pin_ends: Vec::new(),
            nets: Vec::new(),
            conflicts: Vec::new(),
        }
    }
}

impl Chip {
    /// Does a binary search in the given range [low, high) of a list that does not decrease:
    /// the result is the first index in the range whose entry is greater than `target`, or
    /// `high` where there is none. `None` where the range does not lie within the list.
    pub fn binary_search(array: &Vec<usize>, target: usize, low: usize, high: usize) -> (res:
        Option<usize>)
        requires
            nondecreasing(array@),
        ensures
            low <= high <= array@.len() ==> {
                &&& res is Some
                &&& low <= res->0 <= high
                &&& forall|i: int| low <= i < res->0 ==> #[trigger] array@[i] <= target
                &&& forall|i: int| res->0 <= i < high ==> target < #[trigger] array@[i]
            },
            !(low <= high <= array@.len()) ==> res is None,
    {
        if low > high || high > array.len() {
            return None;
        }
        let mut lo: usize = low;
        let mut hi: usize = high;
        while lo < hi
            invariant
                nondecreasing(array@),
                low <= lo <= hi <= high <= array@.len(),
                forall|i: int| low <= i < lo ==> #[trigger] array@[i] <= target,
                forall|i: int| hi <= i < high ==> target < #[trigger] array@[i],
            decreases hi - lo,
        {
            let mid = lo + (hi - lo) / 2;
            if array[mid] <= target {
                lo = mid + 1;
            } else {
                hi = mid;
            }
        }
        Some(lo)
    }

    /// Returns a reference to a layer
    pub fn get_layer(&self, idx: usize) -> (layer: Option<&Layer>)
        ensures
            idx < self.layers@.len() ==> layer == Some(&self.layers@[idx as int]),
            idx >= self.layers@.len() ==> layer is None,
    {
        if idx < self.layers.len() {
            Some(&self.layers[idx])
        } else {
            None
        }
    }

    /// Returns a mutable reference to a layer
    pub fn get_layer_mut(&mut self, idx: usize) -> (layer: Option<&mut Layer>)
        ensures
            idx < old(self).layers@.len() ==> layer is Some && *(layer->0) == old(self).layers@[idx as int] && *final(self) == (Chip {
                layers: final(self).layers,
                ..*old(self)
            }) && final(self).layers@ == old(self).layers@.update(idx as int, *final(layer->0)),
            idx >= old(self).layers@.len() ==> layer is None && *final(self) == *old(self),
    {
        if idx < self.layers.len() {
            Some(&mut self.layers[idx])
        } else {
            None
        }
    }
}

/// The cell that owns pin `pin`, found by binary search over the ends of the cells' runs of
/// pins; `None` for an index that is no pin.
pub fn pin_cell(pin_ends: &Vec<usize>, pin: usize) -> (res: Option<usize>)
    requires
        nondecreasing(pin_ends@),
    ensures
        match res {
            Some(k) => k < pin_ends@.len() && first_pin(pin_ends@, k as int) <= pin < pin_ends@[k as int],
            None => pin_ends@.len() == 0 || pin >= pin_ends@[pin_ends@.len() - 1],
        },
{
    match Chip::binary_search(pin_ends, pin, 0, pin_ends.len()) {
        Some(k) => {
            if k < pin_ends.len() {
                proof {
                    if k > 0 {
                        assert(pin_ends@[k - 1] <= pin);
                    }
                }
                Some(k)
            } else {
                proof {
                    if pin_ends@.len() > 0 {
                        assert(pin_ends@[pin_ends@.len() - 1] <= pin);
                    }
                }
                None
            }
        },
        None => None,
    }
}

/// One line of the route listing: the route, then the name of its net.
pub open spec fn route_line(route: Route<usize>, net: usize) -> Seq<char> {
    route.text() + " "@ + as_text(encode_name(Net::spec_prefix(), net)) + "\n"@
}

/// The first `k` lines of the route listing of net `net`.
pub open spec fn route_lines(routes: Seq<Route<usize>>, net: usize, k: int) -> Seq<char>
    decreases k,
{
    if k <= 0 {
        Seq::empty()
    } else {
        route_lines(routes, net, k - 1) + route_line(routes[k - 1], net)
    }
}

/// The number of cells among the first `k` that have moved.
pub open spec fn moved_count(cells: Seq<Cell>, k: int) -> nat
    decreases k,
{
    if k <= 0 {
        0
    } else {
        moved_count(cells, k - 1) + if cells[k - 1].moved {
            1nat
        } else {
            0nat
        }
    }
}

/// The lines of the cells among the first `k` that have moved, in order.
pub open spec fn moved_lines(cells: Seq<Cell>, k: int) -> Seq<char>
    decreases k,
{
    if k <= 0 {
        Seq::empty()
    } else if cells[k - 1].moved {
        moved_lines(cells, k - 1) + cells[k - 1].text() + "\n"@
    } else {
        moved_lines(cells, k - 1)
    }
}

/// The number of routes that the first `k` nets are written as.
pub open spec fn route_count(nets: Seq<Net>, k: int) -> nat
    decreases k,
{
    if k <= 0 {
        0
    } else {
        route_count(nets, k - 1) + tree_routes(nets[k - 1].tree.nodes@).len()
    }
}

/// The route listings of the first `k` nets, in order.
pub open spec fn net_lines(nets: Seq<Net>, k: int) -> Seq<char>
    decreases k,
{
    if k <= 0 {
        Seq::empty()
    } else {
        net_lines(nets, k - 1) + nets[k - 1].text()
    }
}

/// Every cell and every net has an id that has a name, and the routes can be counted.
pub open spec fn printable(cells: Seq<Cell>, nets: Seq<Net>) -> bool {
    &&& forall|i: int| 0 <= i < cells.len() ==> (#[trigger] cells[i]).id < usize::MAX
    &&& forall|i: int| 0 <= i < nets.len() ==> (#[trigger] nets[i]).id < usize::MAX
    &&& route_count(nets, nets.len() as int) <= usize::MAX
}

/// The routes of more nets are no fewer.
pub proof fn lemma_route_count_grows(nets: Seq<Net>, k: int, n: int)
    requires
        0 <= k <= n <= nets.len(),
    ensures
        route_count(nets, k) <= route_count(nets, n),
    decreases n - k,
{
    if k < n {
        lemma_route_count_grows(nets, k, n - 1);
    }
}

impl Net {
    /// The route listing of the net: one line for each of its tree's routes.
    pub open spec fn text(&self) -> Seq<char> {
        route_lines(
            tree_routes(self.tree.nodes@),
            self.id,
            tree_routes(self.tree.nodes@).len() as int,
        )
    }

    /// Appends the lines of `routes`, each with the name of this net, to `out`.
    pub fn push_lines(&self, routes: &Vec<Route<usize>>, out: &mut String)
        requires
            self.id < usize::MAX,
        ensures
            final(out)@ == old(out)@ + route_lines(routes@, self.id, routes@.len() as int),
    {
        let mut i: usize = 0;
        proof {
            assert(out@ =~= old(out)@ + route_lines(routes@, self.id, 0));
        }
        while i < routes.len()
            invariant
                self.id < usize::MAX,
                0 <= i <= routes@.len(),
                out@ == old(out)@ + route_lines(routes@, self.id, i as int),
            decreases routes@.len() - i,
        {
            let ghost before = out@;
            routes[i].push_text(out);
            out.append(" ");
            push_name(out, Net::prefix(), self.id);
            out.append("\n");
            proof {
                lemma_as_text_concat(Net::spec_prefix(), decimal((self.id + 1) as nat));
                assert(out@ =~= before + route_line(routes@[i as int], self.id));
                assert(out@ =~= old(out)@ + route_lines(routes@, self.id, i + 1));
            }
            i += 1;
        }
    }

    /// The route listing of the net; `None` for an id without a name.
    pub fn to_text(&self) -> (res: Option<String>)
        ensures
            self.id < usize::MAX ==> res is Some && res->0@ == self.text(),
            self.id == usize::MAX ==> res is None,
    {
        if self.id == usize::MAX {
            return None;
        }
        let routes = self.tree.routes();
        let mut out = String::new();
        self.push_lines(&routes, &mut out);
        proof {
            assert(out@ =~= self.text());
        }
        Some(out)
    }
}

impl Chip {
    /// Every layer holds one capacity per grid cell, the master cells and their pins and
    /// blockages have ids of their own, no conflict is entered twice, and the numbering of
    /// the pins fits the cells.
    pub open spec fn wf(&self) -> bool {
        &&& layers_ok(views(self.layers@))
        &&& master_cells_ok(views(self.mastercells@))
        &&& self.conflicts@.no_duplicates()
        &&& cells_ok(views(self.cells@), self.pin_ends@)
    }

    /// The chip holds what `d` declares, no cell has moved, and every net holds the tree built
    /// from its pins and segments.
    pub open spec fn holds(&self, d: DescriptionView) -> bool {
        &&& self.max_move == d.max_move
        &&& self.already_moved == 0
        &&& self.dim == d.dim
        &&& views(self.layers@) == d.layers
        &&& views(self.mastercells@) == d.mastercells
        &&& self.conflicts@ == d.conflicts
        &&& views(self.cells@) == d.cells
        &&& self.pin_ends@ == d.pin_ends
        &&& self.nets@.len() == d.nets.len()
        &&& forall|i: int|
            0 <= i < d.nets.len() ==> {
                &&& (#[trigger] self.nets@[i]).id == d.nets[i].id
                &&& self.nets@[i].min_layer == d.nets[i].min_layer
                &&& built_from(self.nets@[i].tree.nodes@, d.nets[i].pins, d.nets[i].segments)
            }
    }

    /// Builds the nets of a description, in order, and puts the chip together.
    /// Fails with `DisconnectedNet` where the segments of some net do not join all its nodes.
    pub fn from_description(desc: Description) -> (res: Result<Chip, Error>)
        requires
            description_ok(desc@),
        ensures
            res is Ok <==> forall|i: int|
                0 <= i < desc@.nets.len() ==> connectable(
                    (#[trigger] desc@.nets[i]).pins,
                    desc@.nets[i].segments,
                ),
            res matches Ok(chip) ==> chip.holds(desc@) && chip.wf(),
            res matches Err(e) ==> e == Error::DisconnectedNet,
    {
        let mut nets: Vec<Net> = Vec::new();
        let mut i: usize = 0;
        let count = desc.nets.len();
        let ghost inputs = views(desc.nets@);
        while i < count
            invariant
                0 <= i <= count,
                count == desc.nets@.len(),
                inputs == views(desc.nets@),
                nets_ok(inputs),
                nets@.len() == i,
                forall|k: int|
                    0 <= k < i ==> {
                        &&& (#[trigger] nets@[k]).id == inputs[k].id
                        &&& nets@[k].min_layer == inputs[k].min_layer
                        &&& built_from(nets@[k].tree.nodes@, inputs[k].pins, inputs[k].segments)
                        &&& connectable(inputs[k].pins, inputs[k].segments)
                    },
            decreases count - i,
        {
            let input = &desc.nets[i];
            proof {
                assert(inputs[i as int] == desc.nets@[i as int]@);
                assert forall|m: int| 0 <= m < input.segments@.len() implies (
                #[trigger] input.segments@[m]).axis_aligned() by {
                    assert(inputs[i as int].segments[m].axis_aligned());
                }
            }
            match Net::new(input.id, input.min_layer, &input.pins, &input.segments) {
                Ok(net) => {
                    nets.push(net);
                },
                Err(e) => {
                    proof {
                        assert(!connectable(inputs[i as int].pins, inputs[i as int].segments));
                        assert(desc@.nets[i as int] == inputs[i as int]);
                    }
                    return Err(e);
                },
            }
            i += 1;
        }
        proof {
            assert forall|k: int| 0 <= k < desc@.nets.len() implies connectable(
                (#[trigger] desc@.nets[k]).pins,
                desc@.nets[k].segments,
            ) by {
                assert(nets@[k].id == inputs[k].id);
                assert(connectable(inputs[k].pins, inputs[k].segments));
            }
        }
        Ok(
            Chip {
                max_move: desc.max_move,
                already_moved: 0,
                dim: desc.dim,
                layers: desc.layers,
                mastercells: desc.mastercells,
                cells: desc.cells,
                pin_ends: desc.pin_ends,
                nets,
                conflicts: desc.conflicts,
            },
        )
    }

    /// Reads a description file and builds the chip that it declares.
    pub fn parse(input: &str) -> (res: Result<Chip, Error>)
        ensures
            match spec_description(tokens(input.spec_bytes())) {
                Err(e) => res == Err::<Chip, Error>(e),
                Ok(d) => {
                    &&& res is Ok <==> forall|i: int|
                        0 <= i < d.nets.len() ==> connectable(
                            (#[trigger] d.nets[i]).pins,
                            d.nets[i].segments,
                        )
                    &&& res matches Ok(chip) ==> chip.holds(d) && chip.wf()
                    &&& res matches Err(e) ==> e == Error::DisconnectedNet
                },
            },
    {
        let desc = parse_description(input.as_bytes())?;
        Chip::from_description(desc)
    }

    /// Reads the content of a description file into `self`. On an error `self` stays as it
    /// was.
    pub fn read_text(&mut self, input: &str) -> (res: Result<(), Error>)
        ensures
            match spec_description(tokens(input.spec_bytes())) {
                Err(e) => res == Err::<(), Error>(e),
                Ok(d) => {
                    &&& res is Ok <==> forall|i: int|
                        0 <= i < d.nets.len() ==> connectable(
                            (#[trigger] d.nets[i]).pins,
                            d.nets[i].segments,
                        )
                    &&& res is Ok ==> final(self).holds(d) && final(self).wf()
                    &&& res matches Err(e) ==> e == Error::DisconnectedNet
                },
            },
            res is Err ==> *final(self) == *old(self),
    {
        match Chip::parse(input) {
            Ok(chip) => {
                *self = chip;
                Ok(())
            },
            Err(e) => Err(e),
        }
    }

    /// The solution file of the chip: the number of moved cells and a line for each of them,
    /// then the number of routes and the route listing of each net.
    pub open spec fn text(&self) -> Seq<char> {
        "NumMovedCellInst "@ + as_text(
            decimal(moved_count(self.cells@, self.cells@.len() as int)),
        ) + "\n"@ + moved_lines(self.cells@, self.cells@.len() as int) + "NumRoutes "@ + as_text(
            decimal(route_count(self.nets@, self.nets@.len() as int)),
        ) + "\n"@ + net_lines(self.nets@, self.nets@.len() as int)
    }

    /// The solution file of the chip; `None` where a cell or a net has an id without a name,
    /// or where there are more routes than can be counted.
    pub fn to_text(&self) -> (res: Option<String>)
        ensures
            printable(self.cells@, self.nets@) ==> res is Some && res->0@ == self.text(),
            !printable(self.cells@, self.nets@) ==> res is None,
    {
        let mut moved: usize = 0;
        let mut cell_text = String::new();
        let mut i: usize = 0;
        while i < self.cells.len()
            invariant
                0 <= i <= self.cells@.len(),
                moved == moved_count(self.cells@, i as int),
                moved <= i,
                cell_text@ == moved_lines(self.cells@, i as int),
                forall|k: int| 0 <= k < i ==> (#[trigger] self.cells@[k]).id < usize::MAX,
            decreases self.cells@.len() - i,
        {
            if self.cells[i].id == usize::MAX {
                return None;
            }
            if self.cells[i].moved {
                let ghost before = cell_text@;
                self.cells[i].push_text(&mut cell_text);
                cell_text.append("\n");
                moved += 1;
                proof {
                    assert(cell_text@ =~= before + self.cells@[i as int].text() + "\n"@);
                }
            }
            i += 1;
        }
        let mut total: usize = 0;
        let mut net_text = String::new();
        let mut j: usize = 0;
        while j < self.nets.len()
            invariant
                0 <= j <= self.nets@.len(),
                total == route_count(self.nets@, j as int),
                net_text@ == net_lines(self.nets@, j as int),
                forall|k: int| 0 <= k < self.cells@.len() ==> (#[trigger] self.cells@[k]).id < usize::MAX,
                forall|k: int| 0 <= k < j ==> (#[trigger] self.nets@[k]).id < usize::MAX,
            decreases self.nets@.len() - j,
        {
            let net = &self.nets[j];
            if net.id == usize::MAX {
                return None;
            }
            let routes = net.tree.routes();
            total = match total.checked_add(routes.len()) {
                Some(t) => t,
                None => {
                    proof {
                        lemma_route_count_grows(self.nets@, j + 1, self.nets@.len() as int);
                    }
                    return None;
                },
            };
            let ghost before = net_text@;
            net.push_lines(&routes, &mut net_text);
            proof {
                assert(net_text@ =~= before + self.nets@[j as int].text());
            }
            j += 1;
        }
        let mut out = String::new();
        out.append("NumMovedCellInst ");
        push_decimal(&mut out, moved);
        out.append("\n");
        out.append(cell_text.as_str());
        out.append("NumRoutes ");
        push_decimal(&mut out, total);
        out.append("\n");
        out.append(net_text.as_str());
        proof {
            assert(out@ =~= self.text());
        }
        Some(out)
    }
}

/// What the run controller asks for next.
#[derive(Clone, Copy, Debug, PartialEq, Eq, Structural)]
pub enum Step {
    /// one step of the cell-move optimisation
    CellMove,
    /// one step of the net-reroute optimisation
    NetReroute,
    /// nothing: no optimisation was asked for
    Idle,
}

/// `factor` times `count`, or the greatest `u64` where that is too much.
pub open spec fn scaled(factor: u64, count: usize) -> u64 {
    if factor * count <= u64::MAX {
        (factor * count) as u64
    } else {
        u64::MAX
    }
}

/// The time budget in seconds: the seconds option where it is given, else the minutes
/// option, else the hours option, else one hour.
pub open spec fn spec_duration(args: &Args) -> u64 {
    match (args.sec, args.min, args.hr) {
        (Some(sec), _, _) => sec as u64,
        (None, Some(min), _) => scaled(SECS_PER_MIN, min),
        (None, None, Some(hr)) => scaled(SECS_PER_HR, hr),
        (None, None, None) => SECS_PER_HR,
    }
}

/// What the run controller does at a time `elapsed_nanos` after the start: nothing where no
/// optimisation was asked for; else it fails with `TimeExpired` once the budget is used up,
/// and asks for a step of the chosen optimisation before that, cell moves first.
pub open spec fn spec_step(args: &Args, elapsed_nanos: u128) -> Result<Step, Error> {
    if !args.cell && !args.net {
        Ok(Step::Idle)
    } else if elapsed_nanos >= spec_duration(args) * NANOS_PER_SEC {
        Err(Error::TimeExpired)
    } else if args.cell {
        Ok(Step::CellMove)
    } else {
        Ok(Step::NetReroute)
    }
}

impl Chip {
    /// The time budget of a run, in seconds.
    pub fn duration(args: &Args) -> (secs: u64)
        ensures
            secs == spec_duration(args),
    {
        // By default duration is equal to 1 hr
        match (args.sec, args.min, args.hr) {
            (Some(sec), _, _) => sec as u64,
            (None, Some(min), _) => match SECS_PER_MIN.checked_mul(min as u64) {
                Some(secs) => secs,
                None => u64::MAX,
            },
            (None, None, Some(hr)) => match SECS_PER_HR.checked_mul(hr as u64) {
                Some(secs) => secs,
                None => u64::MAX,
            },
            (None, None, None) => SECS_PER_HR,
        }
    }

    /// Whether a run that has taken `elapsed_nanos` so far is within a budget of `duration`
    /// seconds.
    pub fn check_time(elapsed_nanos: u128, duration: u64) -> (res: Result<(), Error>)
        ensures
            res == if elapsed_nanos < duration * NANOS_PER_SEC {
                Ok::<(), Error>(())
            } else {
                Err::<(), Error>(Error::TimeExpired)
            },
    {
        let budget: u128 = (duration as u128) * NANOS_PER_SEC;
        if elapsed_nanos < budget {
            Ok(())
        } else {
            Err(Error::TimeExpired)
        }
    }

    /// One turn of the run controller: what to do next at a time `elapsed_nanos` after the
    /// start of the run.
    pub fn run(&self, args: &Args, elapsed_nanos: u128) -> (res: Result<Step, Error>)
        ensures
            res == spec_step(args, elapsed_nanos),
    {
        if !args.cell && !args.net {
            return Ok(Step::Idle);
        }
        Chip::check_time(elapsed_nanos, Chip::duration(args))?;
        if args.cell {
            Ok(Step::CellMove)
        } else {
            Ok(Step::NetReroute)
        }
    }
}

/// Whether cell `cell` may be moved: it exists, it is movable, and either it has moved
/// before or the number of moved cells is still below the limit.
pub open spec fn can_move(chip: Chip, cell: int) -> bool {
    &&& 0 <= cell < chip.cells@.len()
    &&& chip.cells@[cell].movable == CellType::Movable
    &&& (chip.cells@[cell].moved || chip.already_moved < chip.max_move)
}

/// The first cell from `k` on whose run of pins ends after `pin`; the number of cells where
/// there is none.
pub open spec fn owner_from(ends: Seq<usize>, pin: int, k: int) -> int
    decreases ends.len() - k,
{
    if 0 <= k < ends.len() && ends[k] <= pin {
        owner_from(ends, pin, k + 1)
    } else {
        k
    }
}

/// The cell that owns `pin`; the number of cells for an index that is no pin.
pub open spec fn owner(ends: Seq<usize>, pin: int) -> int {
    owner_from(ends, pin, 0)
}

/// The owner of a pin, counted from cell `k`, is the first cell from `k` on whose run ends
/// after the pin.
pub proof fn lemma_owner_from(ends: Seq<usize>, pin: int, k: int, at: int)
    requires
        0 <= k <= at <= ends.len(),
        forall|i: int| k <= i < at ==> #[trigger] ends[i] <= pin,
        at < ends.len() ==> pin < ends[at],
    ensures
        owner_from(ends, pin, k) == at,
    decreases at - k,
{
    if k < at {
        assert(ends[k] <= pin);
        lemma_owner_from(ends, pin, k + 1, at);
    }
}

/// The pins `pins`, each with the position of the cell that owns it.
pub open spec fn placed(cells: Seq<Cell>, ends: Seq<usize>, pins: Seq<usize>) -> Seq<
    (usize, Pair<usize>),
> {
    Seq::new(pins.len(), |i: int| (pins[i], cells[owner(ends, pins[i] as int)].position))
}

/// Whether net `net` can be routed anew through `pins` along `segments`: the net exists,
/// every pin is a pin of some cell, and every segment runs along one axis.
pub open spec fn can_reroute(chip: Chip, net: int, pins: Seq<usize>, segments: Seq<Route<usize>>) -> bool {
    &&& 0 <= net < chip.nets@.len()
    &&& forall|i: int| 0 <= i < pins.len() ==> owner(chip.pin_ends@, #[trigger] pins[i] as int) < chip.cells@.len()
    &&& forall|m: int| 0 <= m < segments.len() ==> (#[trigger] segments[m]).axis_aligned()
}

impl Chip {
    /// The cell that owns pin `pin`, where that is the pin of a cell.
    pub fn pin_owner(&self, pin: usize) -> (res: Option<usize>)
        requires
            self.wf(),
        ensures
            match res {
                Some(k) => k < self.cells@.len() && k == owner(self.pin_ends@, pin as int),
                None => owner(self.pin_ends@, pin as int) >= self.cells@.len(),
            },
    {
        proof {
            assert forall|i: int, j: int| 0 <= i <= j < self.pin_ends@.len() implies self.pin_ends@[i]
                <= self.pin_ends@[j] by {
                lemma_ends_nondecreasing(views(self.cells@), self.pin_ends@, i, j);
            }
        }
        match Chip::binary_search(&self.pin_ends, pin, 0, self.pin_ends.len()) {
            Some(k) => {
                proof {
                    lemma_owner_from(self.pin_ends@, pin as int, 0, k as int);
                }
                if k < self.pin_ends.len() {
                    Some(k)
                } else {
                    None
                }
            },
            None => None,
        }
    }

    /// Moves cell `cell` to `to` where that is allowed, and says whether it did: the cell must
    /// exist and be movable, and the limit of moved cells must leave room for it unless it has
    /// moved before.
    pub fn move_cell(&mut self, cell: usize, to: Pair<usize>) -> (moved: bool)
        requires
            old(self).wf(),
        ensures
            final(self).wf(),
            moved == can_move(*old(self), cell as int),
            !moved ==> *final(self) == *old(self),
            moved ==> {
                &&& final(self).cells@ == old(self).cells@.update(
                    cell as int,
                    Cell { position: to, moved: true, ..old(self).cells@[cell as int] },
                )
                &&& final(self).already_moved == old(self).already_moved + if old(self).cells@[cell as int].moved {
                    0int
                } else {
                    1int
                }
                &&& *final(self) == (Chip {
                    cells: final(self).cells,
                    already_moved: final(self).already_moved,
                    ..*old(self)
                })
            },
    {
        if cell >= self.cells.len() {
            return false;
        }
        match self.cells[cell].movable {
            CellType::Fixed => {
                return false;
            },
            CellType::Movable => {},
        }
        let before = self.cells[cell].moved;
        if !before && self.already_moved >= self.max_move {
            return false;
        }
        let ghost old_cells = self.cells@;
        self.cells[cell].position = to;
        self.cells[cell].moved = true;
        if !before {
            self.already_moved = self.already_moved + 1;
        }
        proof {
            let cv = views(self.cells@);
            let ov = views(old_cells);
            assert forall|k: int| 0 <= k < cv.len() implies #[trigger] cell_ok(
                cv,
                self.pin_ends@,
                k,
            ) by {
                assert(cell_ok(ov, self.pin_ends@, k));
                assert(cv[k].pins == ov[k].pins);
                assert(cv[k].id == ov[k].id);
            }
            assert(self.cells@ =~= old_cells.update(
                cell as int,
                Cell { position: to, moved: true, ..old_cells[cell as int] },
            ));
        }
        true
    }

    /// Routes net `net` anew: its tree is replaced by the tree built from `pins`, each at the
    /// position of the cell that owns it now, and `segments`. Fails with `Corrupt` where the
    /// net or a pin does not exist or a segment does not run along one axis, and with
    /// `DisconnectedNet` where the segments do not join all nodes; the chip then stays as it
    /// was.
    pub fn reroute(&mut self, net: usize, pins: &Vec<usize>, segments: &Vec<Route<usize>>) -> (res:
        Result<(), Error>)
        requires
            old(self).wf(),
        ensures
            final(self).wf(),
            res is Err ==> *final(self) == *old(self),
            !can_reroute(*old(self), net as int, pins@, segments@) ==> res == Err::<(), Error>(
                Error::Corrupt,
            ),
            can_reroute(*old(self), net as int, pins@, segments@) ==> {
                let input = placed(old(self).cells@, old(self).pin_ends@, pins@);
                &&& res is Ok <==> connectable(input, segments@)
                &&& res matches Err(e) ==> e == Error::DisconnectedNet
                &&& res is Ok ==> {
                    &&& built_from(final(self).nets@[net as int].tree.nodes@, input, segments@)
                    &&& final(self).nets@[net as int].id == old(self).nets@[net as int].id
                    &&& final(self).nets@[net as int].min_layer == old(self).nets@[net as int].min_layer
                    &&& final(self).nets@ == old(self).nets@.update(
                        net as int,
                        final(self).nets@[net as int],
                    )
                    &&& *final(self) == (Chip { nets: final(self).nets, ..*old(self) })
                }
            },
    {
        if net >= self.nets.len() {
            return Err(Error::Corrupt);
        }
        let mut input: Vec<(usize, Pair<usize>)> = Vec::new();
        let mut i: usize = 0;
        while i < pins.len()
            invariant
                self.wf(),
                *self == *old(self),
                0 <= i <= pins@.len(),
                input@.len() == i,
                forall|k: int|
                    0 <= k < i ==> owner(self.pin_ends@, #[trigger] pins@[k] as int)
                        < self.cells@.len(),
                forall|k: int|
                    0 <= k < i ==> #[trigger] input@[k] == (
                        pins@[k],
                        self.cells@[owner(self.pin_ends@, pins@[k] as int)].position,
                    ),
            decreases pins@.len() - i,
        {
            match self.pin_owner(pins[i]) {
                Some(k) => {
                    input.push((pins[i], self.cells[k].position));
                },
                None => {
                    return Err(Error::Corrupt);
                },
            }
            i += 1;
        }
        proof {
            assert(input@ =~= placed(self.cells@, self.pin_ends@, pins@));
        }
        let mut m: usize = 0;
        while m < segments.len()
            invariant
                self.wf(),
                *self == *old(self),
                net < self.nets@.len(),
                0 <= m <= segments@.len(),
                forall|k: int| 0 <= k < m ==> (#[trigger] segments@[k]).axis_aligned(),
                forall|k: int|
                    0 <= k < pins@.len() ==> owner(self.pin_ends@, #[trigger] pins@[k] as int)
                        < self.cells@.len(),
                input@ == placed(self.cells@, self.pin_ends@, pins@),
            decreases segments@.len() - m,
        {
            if !segments[m].is_axis_aligned() {
                return Err(Error::Corrupt);
            }
            m += 1;
        }
        let tree = NetTree::build(&input, segments)?;
        self.nets[net].tree = tree;
        proof {
            assert(self.nets@ =~= old(self).nets@.update(net as int, self.nets@[net as int]));
        }
        Ok(())
    }
}

} // verus!
