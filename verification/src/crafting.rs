//! A crafting table of 3x3 places and recipes for it.

use vstd::prelude::*;
use crate::item_stack::ItemStack;

verus! {

/// What lies on the nine places of a table, as `[row][col]`.
pub type Grid = [[Option<ItemStack>; 3]; 3];

/// The kinds of item that a recipe asks for, as `[row][col]`.
pub type Pattern = [[Option<u16>; 3]; 3];

/// A crafting table.
pub struct CraftingTable {
    grid: Grid,
}

/// A recipe: what must lie where, and what comes of it.
pub struct Recipe {
    pattern: Pattern,
    output: ItemStack,
}

/// What lies on a place is what the recipe asks for there: nothing where it
/// asks for nothing, a stack of the kind where it asks for a kind.
pub open spec fn place_matches(wanted: Option<u16>, there: Option<ItemStack>) -> bool {
    match (wanted, there) {
        (Some(id), Some(item)) => item.item_id == id,
        (None, None) => true,
        _ => false,
    }
}

/// What is left on a place after one item was taken for the recipe, if the
/// recipe asks for one there.
pub open spec fn place_after(wanted: Option<u16>, there: Option<ItemStack>) -> Option<ItemStack> {
    match (wanted, there) {
        (Some(_), Some(item)) => if item.count == 1 {
            None
        } else {
            Some(
                ItemStack {
                    item_id: item.item_id,
                    count: (item.count - 1) as u8,
                    max_stack_size: item.max_stack_size,
                },
            )
        },
        _ => there,
    }
}

impl CraftingTable {
    /// What lies on the table.
    pub closed spec fn grid(&self) -> Grid {
        self.grid
    }

    /// An empty table.
    pub fn new() -> (table: Self)
        ensures
            forall|r: int, c: int| 0 <= r < 3 && 0 <= c < 3 ==> #[trigger] table.grid()[r][c] is None,
    {
        let empty: Option<ItemStack> = None;
        let row = [empty;3];
        let grid = [row;3];
        proof {
            vstd::array::axiom_spec_array_fill_for_copy_type::<Option<ItemStack>, 3>(empty);
            vstd::array::axiom_spec_array_fill_for_copy_type::<[Option<ItemStack>; 3], 3>(row);
        }
        CraftingTable { grid }
    }

    /// Whether nothing lies on the table.
    pub fn is_empty(&self) -> (b: bool)
        ensures
            b <==> forall|r: int, c: int| 0 <= r < 3 && 0 <= c < 3 ==> #[trigger] self.grid()[r][c] is None,
    {
        for row in 0..3usize
            invariant
                forall|r: int, c: int| 0 <= r < row && 0 <= c < 3 ==> #[trigger] self.grid()[r][c] is None,
        {
            for col in 0..3usize
                invariant
                    row < 3,
                    forall|r: int, c: int|
                        (0 <= r < row && 0 <= c < 3) || (r == row && 0 <= c < col)
                            ==> #[trigger] self.grid()[r][c] is None,
            {
                if self.grid[row][col].is_some() {
                    assert(self.grid()[row as int][col as int] is Some);
                    return false;
                }
            }
        }
        true
    }

    /// What lies on the place `(row, col)`; nothing outside the table.
    pub fn get_ingredient(&self, row: usize, col: usize) -> (item: Option<ItemStack>)
        ensures
            item == if row < 3 && col < 3 {
                self.grid()[row as int][col as int]
            } else {
                None
            },
    {
        if row < 3 && col < 3 {
            self.grid[row][col]
        } else {
            None
        }
    }

    /// Lays `item` on the place `(row, col)`; does nothing outside the table.
    pub fn set_ingredient(&mut self, row: usize, col: usize, item: Option<ItemStack>)
        ensures
            forall|r: int, c: int|
                0 <= r < 3 && 0 <= c < 3 ==> #[trigger] final(self).grid()[r][c] == if r == row && c
                    == col {
                    item
                } else {
                    old(self).grid()[r][c]
                },
    {
        if row < 3 && col < 3 {
            self.grid[row][col] = item;
        }
    }

    /// Takes everything off the table.
    pub fn clear(&mut self)
        ensures
            forall|r: int, c: int|
                0 <= r < 3 && 0 <= c < 3 ==> #[trigger] final(self).grid()[r][c] is None,
    {
        let empty: Option<ItemStack> = None;
        let row = [empty;3];
        let grid = [row;3];
        proof {
            vstd::array::axiom_spec_array_fill_for_copy_type::<Option<ItemStack>, 3>(empty);
            vstd::array::axiom_spec_array_fill_for_copy_type::<[Option<ItemStack>; 3], 3>(row);
        }
        self.grid = grid;
    }

    /// Crafts by `recipe`: if the table matches it, one item is taken from
    /// each place that the recipe names, and the outcome of the recipe is
    /// returned; else nothing happens.
    pub fn craft(&mut self, recipe: &Recipe) -> (made: Option<ItemStack>)
        requires
            recipe.fits(old(self).grid()) ==> forall|r: int, c: int|
                0 <= r < 3 && 0 <= c < 3 && recipe.pattern()[r][c] is Some ==> (
                #[trigger] old(self).grid()[r][c])->0.count > 0,
        ensures
            made == if recipe.fits(old(self).grid()) {
                Some(recipe.outcome())
            } else {
                None
            },
            forall|r: int, c: int|
                0 <= r < 3 && 0 <= c < 3 ==> #[trigger] final(self).grid()[r][c] == if recipe.fits(
                    old(self).grid(),
                ) {
                    place_after(recipe.pattern()[r][c], old(self).grid()[r][c])
                } else {
                    old(self).grid()[r][c]
                },
    {
        if !recipe.matches(self) {
            return None;
        }
        let ghost before = self.grid;

        for row in 0..3usize
            invariant
                recipe.fits(before),
                forall|r: int, c: int|
                    0 <= r < 3 && 0 <= c < 3 && recipe.pattern()[r][c] is Some ==> (
                    #[trigger] before[r][c])->0.count > 0,
                forall|r: int, c: int|
                    0 <= r < 3 && 0 <= c < 3 ==> #[trigger] self.grid[r][c] == if r < row {
                        place_after(recipe.pattern()[r][c], before[r][c])
                    } else {
                        before[r][c]
                    },
        {
            for col in 0..3usize
                invariant
                    row < 3,
                    recipe.fits(before),
                    forall|r: int, c: int|
                        0 <= r < 3 && 0 <= c < 3 && recipe.pattern()[r][c] is Some ==> (
                        #[trigger] before[r][c])->0.count > 0,
                    forall|r: int, c: int|
                        0 <= r < 3 && 0 <= c < 3 ==> #[trigger] self.grid[r][c] == if r < row || (r
                            == row && c < col) {
                            place_after(recipe.pattern()[r][c], before[r][c])
                        } else {
                            before[r][c]
                        },
            {
                let ghost mid = self.grid;
                proof {
                    assert(place_matches(
                        recipe.pattern()[row as int][col as int],
                        before[row as int][col as int],
                    ));
                    assert(mid[row as int][col as int] == before[row as int][col as int]);
                }
                if recipe.pattern[row][col].is_some() {
                    match self.grid[row][col] {
                        Some(item) => {
                            proof {
                                assert(before[row as int][col as int]->0.count > 0);
                            }
                            let count = item.count - 1;
                            if count == 0 {
                                self.grid[row][col] = None;
                            } else {
                                self.grid[row][col] = Some(
                                    ItemStack {
                                        item_id: item.item_id,
                                        count,
                                        max_stack_size: item.max_stack_size,
                                    },
                                );
                            }
                        },
                        None => {},
                    }
                }
                proof {
                    assert forall|r: int, c: int| 0 <= r < 3 && 0 <= c < 3 implies #[trigger] self.grid[r][c]
                        == if r < row || (r == row && c < col + 1) {
                        place_after(recipe.pattern()[r][c], before[r][c])
                    } else {
                        before[r][c]
                    } by {
                        if !(r == row && c == col) {
                            assert(self.grid[r][c] == mid[r][c]);
                        }
                    }
                }
            }
        }
        Some(recipe.output)
    }
}

impl Default for CraftingTable {
    fn default() -> (table: Self)
        ensures
            forall|r: int, c: int| 0 <= r < 3 && 0 <= c < 3 ==> #[trigger] table.grid()[r][c] is None,
    {
        CraftingTable::new()
    }
}

impl Recipe {
    /// What must lie where.
    pub closed spec fn pattern(&self) -> Pattern {
        self.pattern
    }

    /// What comes of the recipe.
    pub closed spec fn outcome(&self) -> ItemStack {
        self.output
    }

    /// Every place of `grid` holds what the recipe asks for there.
    pub open spec fn fits(&self, grid: Grid) -> bool {
        forall|r: int, c: int|
            0 <= r < 3 && 0 <= c < 3 ==> place_matches(
                #[trigger] self.pattern()[r][c],
                grid[r][c],
            )
    }

    /// The recipe that asks for `pattern` and gives `output`.
    pub fn shaped(pattern: Pattern, output: ItemStack) -> (recipe: Self)
        ensures
            recipe.pattern() == pattern,
            recipe.outcome() == output,
    {
        Recipe { pattern, output }
    }

    /// Whether every place of the table holds what the recipe asks for there.
    pub fn matches(&self, table: &CraftingTable) -> (b: bool)
        ensures
            b == self.fits(table.grid()),
    {
        for row in 0..3usize
            invariant
                forall|r: int, c: int|
                    0 <= r < row && 0 <= c < 3 ==> place_matches(
                        #[trigger] self.pattern()[r][c],
                        table.grid()[r][c],
                    ),
        {
            for col in 0..3usize
                invariant
                    row < 3,
                    forall|r: int, c: int|
                        (0 <= r < row && 0 <= c < 3) || (r == row && 0 <= c < col)
                            ==> place_matches(#[trigger] self.pattern()[r][c], table.grid()[r][c]),
            {
                let ok = match (self.pattern[row][col], table.grid[row][col]) {
                    (Some(required_id), Some(item)) => item.item_id == required_id,
                    (Some(_), None) => false,
                    (None, Some(_)) => false,
                    (None, None) => true,
                };
                if !ok {
                    assert(!place_matches(
                        self.pattern()[row as int][col as int],
                        table.grid()[row as int][col as int],
                    ));
                    return false;
                }
            }
        }
        true
    }
}

} // verus!
