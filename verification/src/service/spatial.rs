//! The spatial index of the dependency graph: an r-tree of rectangles, each
//! tagged with the cell that reads it.
use rstar::primitives::GeomWithData;
use rstar::primitives::Rectangle;
use rstar::RTree;
use vstd::multiset::Multiset;
use vstd::prelude::*;

verus! {

/// An r-tree of rectangles with whole-number corners, each tagged with a
/// cell. Verus sees nothing of its inside: what it holds is named by
/// [`index_entries`].
#[verifier::external_body]
pub struct EdgeIndex {
    tree: RTree<GeomWithData<Rectangle<[i32; 2]>, [i32; 2]>>,
}

/// The entries that an index holds. An entry is a cell and a rectangle with
/// both corners included: `(cell row, cell column, lowest row, lowest
/// column, highest row, highest column)`.
pub uninterp spec fn index_entries(index: EdgeIndex) -> Multiset<(i32, i32, i32, i32, i32, i32)>;

/// The coordinates that rectangles of the index may use: `0` up to, not
/// including, this bound. Inside it the areas and distances that the index
/// computes fit its 32-bit arithmetic.
pub const WINDOW: i32 = 16384;

/// Whether the rectangle of `entry` has its lower corner below or at its
/// upper corner and lies inside the window.
pub open spec fn in_window(entry: (i32, i32, i32, i32, i32, i32)) -> bool {
    &&& 0 <= entry.2 <= entry.4 < WINDOW
    &&& 0 <= entry.3 <= entry.5 < WINDOW
}

/// Whether the rectangle of `entry` holds the position `(row, col)`.
pub open spec fn covers(entry: (i32, i32, i32, i32, i32, i32), row: i32, col: i32) -> bool {
    &&& entry.2 <= row <= entry.4
    &&& entry.3 <= col <= entry.5
}

/// `RTree::new`: an index without entries.
#[verifier::external_body]
pub(crate) fn index_new() -> (index: EdgeIndex)
    ensures
        index_entries(index) == Multiset::<(i32, i32, i32, i32, i32, i32)>::empty(),
{
    EdgeIndex { tree: RTree::new() }
}

/// `RTree::insert` of the rectangle `Rectangle::from_corners` of the entry's
/// two corners, tagged with the entry's cell: the index gains one copy of
/// the entry, also where it holds one already.
#[verifier::external_body]
pub(crate) fn index_insert(
    index: &mut EdgeIndex,
    entry: (i32, i32, i32, i32, i32, i32),
)
    requires
        in_window(entry),
    ensures
        index_entries(*final(index)) == index_entries(*old(index)).insert(entry),
{
    let rect = Rectangle::from_corners([entry.2, entry.3], [entry.4, entry.5]);
    index.tree.insert(GeomWithData::new(rect, [entry.0, entry.1]));
}

/// `RTree::remove`: takes one copy of the entry out of the index, if it
/// holds one.
#[verifier::external_body]
pub(crate) fn index_remove(index: &mut EdgeIndex, entry: (i32, i32, i32, i32, i32, i32))
    requires
        in_window(entry),
    ensures
        index_entries(*final(index)) == index_entries(*old(index)).remove(entry),
{
    let rect = Rectangle::from_corners([entry.2, entry.3], [entry.4, entry.5]);
    index.tree.remove(&GeomWithData::new(rect, [entry.0, entry.1]));
}

/// `RTree::locate_all_at_point`: the entries whose rectangle holds the
/// position, each as often as the index holds it, in the order in which the
/// index yields them.
#[verifier::external_body]
pub(crate) fn index_locate(
    index: &EdgeIndex,
    row: i32,
    col: i32,
) -> (found: Vec<(i32, i32, i32, i32, i32, i32)>)
    ensures
        found@.to_multiset() == index_entries(*index).filter(
            |entry: (i32, i32, i32, i32, i32, i32)| covers(entry, row, col),
        ),
{
    index.tree.locate_all_at_point(&[row, col]).map(
        |e| (e.data[0], e.data[1], e.geom().lower()[0], e.geom().lower()[1], e.geom().upper()[0],
            e.geom().upper()[1]),
    ).collect()
}

} // verus!
