use vstd::prelude::*;

verus! {

/// An individual tile of a tile grid.
#[derive(Clone, Debug)]
pub struct Tile<T> {
    /// The value stored in this tile
    pub value: Option<T>,
    /// If the tile is empty from a movement perspective
    pub empty: bool,
}

impl<T> Tile<T> {
    /// Create a solid version of a tile
    pub fn solid(value: Option<T>) -> (tile: Tile<T>)
        ensures
            tile.value == value,
            !tile.empty,
    {
        Tile { value, empty: false }
    }

    /// Create a non-solid version of a tile
    pub fn empty(value: Option<T>) -> (tile: Tile<T>)
        ensures
            tile.value == value,
            tile.empty,
    {
        Tile { value, empty: true }
    }
}

/// The tiles of a tile map, stored column after column.
///
/// The map's geometry (its size, its tile size and the position of a point) lives with
/// the caller, which turns a point into the index of its tile.
pub struct TileGrid<T> {
    data: Vec<Tile<T>>,
}

impl<T> View for TileGrid<T> {
    type V = Seq<Tile<T>>;

    closed spec fn view(&self) -> Seq<Tile<T>> {
        self.data@
    }
}

impl<T> TileGrid<T> {
    /// A grid of `len` empty, non-solid tiles
    pub fn new(len: usize) -> (grid: TileGrid<T>)
        ensures
            grid@.len() == len,
            forall|i: int| 0 <= i < len ==> #[trigger] grid@[i] == (Tile::<T> { value: None, empty: true }),
    {
        let mut data: Vec<Tile<T>> = Vec::new();
        let mut k: usize = 0;
        while k < len
            invariant
                k <= len,
                data@.len() == k,
                forall|i: int| 0 <= i < k ==> #[trigger] data@[i] == (Tile::<T> { value: None, empty: true }),
            decreases len - k,
        {
            data.push(Tile::empty(None));
            k = k + 1;
        }
        TileGrid { data }
    }

    /// A grid holding the given tiles
    pub fn with_data(data: Vec<Tile<T>>) -> (grid: TileGrid<T>)
        ensures
            grid@ == data@,
    {
        TileGrid { data }
    }

    /// The number of tiles
    pub fn len(&self) -> (n: usize)
        ensures
            n == self@.len(),
    {
        self.data.len()
    }

    /// The tile at an index
    pub fn tile(&self, index: usize) -> (t: &Tile<T>)
        requires
            index < self@.len(),
        ensures
            *t == self@[index as int],
    {
        &self.data[index]
    }

    /// Replace the tile at an index
    pub fn set(&mut self, index: usize, value: Tile<T>)
        requires
            index < old(self)@.len(),
        ensures
            final(self)@ == old(self)@.update(index as int, value),
    {
        self.data.set(index, value);
    }

    /// Whether the tile at an index is empty from a movement perspective
    pub fn tile_empty(&self, index: usize) -> (b: bool)
        requires
            index < self@.len(),
        ensures
            b == self@[index as int].empty,
    {
        self.data[index].empty
    }

    /// Convert every stored value, keeping which tiles are empty
    pub fn convert<U, F: Fn(&T) -> U>(&self, conversion: F) -> (grid: TileGrid<U>)
        requires
            forall|x: &T| conversion.requires((x,)),
        ensures
            grid@.len() == self@.len(),
            forall|i: int|
                0 <= i < self@.len() ==> (#[trigger] grid@[i]).empty == self@[i].empty && (
                grid@[i].value is None <==> self@[i].value is None),
            forall|i: int|
                0 <= i < self@.len() && (#[trigger] self@[i]).value is Some ==> conversion.ensures(
                    (&self@[i].value.unwrap(),),
                    grid@[i].value.unwrap(),
                ),
    {
        let mut data: Vec<Tile<U>> = Vec::new();
        let mut k: usize = 0;
        while k < self.data.len()
            invariant
                k <= self@.len(),
                data@.len() == k,
                forall|x: &T| conversion.requires((x,)),
                forall|i: int|
                    0 <= i < k ==> (#[trigger] data@[i]).empty == self@[i].empty && (data@[i].value is None
                        <==> self@[i].value is None),
                forall|i: int|
                    0 <= i < k && (#[trigger] self@[i]).value is Some ==> conversion.ensures(
                        (&self@[i].value.unwrap(),),
                        data@[i].value.unwrap(),
                    ),
            decreases self@.len() - k,
        {
            let tile = &self.data[k];
            let value = match &tile.value {
                Some(x) => Some(conversion(x)),
                None => None,
            };
            data.push(Tile { value, empty: tile.empty });
            k = k + 1;
        }
        TileGrid { data }
    }
}

/// Reading a tile after setting it gives back the tile set, and every other tile is the
/// one that was there before.
pub proof fn lemma_set_then_read<T>(tiles: Seq<Tile<T>>, index: int, value: Tile<T>)
    requires
        0 <= index < tiles.len(),
    ensures
        tiles.update(index, value)[index] == value,
        forall|j: int| 0 <= j < tiles.len() && j != index ==> #[trigger] tiles.update(index, value)[j]
            == tiles[j],
        tiles.update(index, value).len() == tiles.len(),
{
}

} // verus!
