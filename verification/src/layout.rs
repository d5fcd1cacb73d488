//! The four layouts: which columns a store has and what each of them maps.

use vstd::prelude::*;

verus! {

/// How a store lays its data out over columns. Each field names a column by its index.
#[derive(Clone, Copy, Debug)]
pub enum Layout {
    /// One column from key to value.
    Plain { key_to_value: u8 },
    /// Two columns, one for each direction; values are unique.
    UniqueIndex { key_to_value: u8, value_to_key: u8 },
    /// A column from key to value and a column of `value ++ key` entries
    /// with empty values, scanned by prefix to find the keys of a value.
    Range { key_to_value: u8, value_key_btree: u8 },
    /// Values are interned under a birth key, the first key that was bound
    /// to the value: key to birth key, birth key to value, value to birth
    /// key, and `birth key ++ key` entries with empty values.
    Dictionary { key_to_birth_key: u8, birth_key_to_value: u8, value_to_birth_key: u8, birth_key_key_btree: u8 },
}

impl Layout {
    /// The number of columns that a store of this layout has.
    pub open spec fn columns(&self) -> nat {
        match self {
            Layout::Plain { .. } => 1,
            Layout::UniqueIndex { .. } => 2,
            Layout::Range { .. } => 2,
            Layout::Dictionary { .. } => 4,
        }
    }

    /// Every column that the layout names exists, and no column is named twice.
    pub open spec fn fits(&self) -> bool {
        match *self {
            Layout::Plain { key_to_value } => key_to_value < 1,
            Layout::UniqueIndex { key_to_value, value_to_key } => key_to_value < 2 && value_to_key < 2
                && key_to_value != value_to_key,
            Layout::Range { key_to_value, value_key_btree } => key_to_value < 2 && value_key_btree < 2
                && key_to_value != value_key_btree,
            Layout::Dictionary { key_to_birth_key, birth_key_to_value, value_to_birth_key, birth_key_key_btree } => {
                &&& key_to_birth_key < 4
                &&& birth_key_to_value < 4
                &&& value_to_birth_key < 4
                &&& birth_key_key_btree < 4
                &&& key_to_birth_key != birth_key_to_value
                &&& key_to_birth_key != value_to_birth_key
                &&& key_to_birth_key != birth_key_key_btree
                &&& birth_key_to_value != value_to_birth_key
                &&& birth_key_to_value != birth_key_key_btree
                &&& value_to_birth_key != birth_key_key_btree
            },
        }
    }

    /// The plain layout on column `from`.
    pub fn plain(from: u8) -> (l: Layout)
        ensures
            l == (Layout::Plain { key_to_value: from }),
            from == 0 ==> l.fits(),
    {
        Layout::Plain { key_to_value: from }
    }

    /// The unique-index layout on the two columns that start at `from`.
    pub fn unique_index(from: u8) -> (l: Layout)
        requires
            from <= u8::MAX - 1,
        ensures
            l == (Layout::UniqueIndex { key_to_value: from, value_to_key: (from + 1) as u8 }),
            from == 0 ==> l.fits(),
    {
        Layout::UniqueIndex { key_to_value: from, value_to_key: from + 1 }
    }

    /// The range layout on the two columns that start at `from`.
    pub fn range(from: u8) -> (l: Layout)
        requires
            from <= u8::MAX - 1,
        ensures
            l == (Layout::Range { key_to_value: from, value_key_btree: (from + 1) as u8 }),
            from == 0 ==> l.fits(),
    {
        Layout::Range { key_to_value: from, value_key_btree: from + 1 }
    }

    /// The dictionary layout on the four columns that start at `from`.
    pub fn dictionary(from: u8) -> (l: Layout)
        requires
            from <= u8::MAX - 3,
        ensures
            l == (Layout::Dictionary {
                key_to_birth_key: from,
                birth_key_to_value: (from + 1) as u8,
                value_to_birth_key: (from + 2) as u8,
                birth_key_key_btree: (from + 3) as u8,
            }),
            from == 0 ==> l.fits(),
    {
        Layout::Dictionary {
            key_to_birth_key: from,
            birth_key_to_value: from + 1,
            value_to_birth_key: from + 2,
            birth_key_key_btree: from + 3,
        }
    }

    /// The number of columns that a store of this layout has.
    pub fn column_count(&self) -> (n: usize)
        ensures
            n == self.columns(),
    {
        match self {
            Layout::Plain { .. } => 1,
            Layout::UniqueIndex { .. } => 2,
            Layout::Range { .. } => 2,
            Layout::Dictionary { .. } => 4,
        }
    }

    /// Whether every column that the layout names exists and none is named twice.
    pub fn check(&self) -> (ok: bool)
        ensures
            ok == self.fits(),
    {
        match *self {
            Layout::Plain { key_to_value } => key_to_value < 1,
            Layout::UniqueIndex { key_to_value, value_to_key } => key_to_value < 2 && value_to_key < 2
                && key_to_value != value_to_key,
            Layout::Range { key_to_value, value_key_btree } => key_to_value < 2 && value_key_btree < 2
                && key_to_value != value_key_btree,
            Layout::Dictionary { key_to_birth_key, birth_key_to_value, value_to_birth_key, birth_key_key_btree } => {
                key_to_birth_key < 4 && birth_key_to_value < 4 && value_to_birth_key < 4 && birth_key_key_btree < 4
                    && key_to_birth_key != birth_key_to_value && key_to_birth_key != value_to_birth_key
                    && key_to_birth_key != birth_key_key_btree && birth_key_to_value != value_to_birth_key
                    && birth_key_to_value != birth_key_key_btree && value_to_birth_key != birth_key_key_btree
            },
        }
    }
}

} // verus!
