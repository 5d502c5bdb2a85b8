//! Tables in memory: their sizes, and what damage does to them.

use std::sync::Arc;

use vstd::prelude::*;

use crate::error::StorageError;
use crate::iterators::StorageIterator;
use crate::key::KeySlice;
use crate::key::KeyView;

use crate::memory::Damage;
use crate::memory::InMemoryTable;
use crate::memory::InMemoryTableBuilder;
use crate::memory::InMemoryTableIterator;
use crate::merge::Entry;
use crate::table::Table;
use crate::table::TableBuilder;

verus! {

/// Every entry adds its user key, its value and fourteen bytes to the size, up to the largest number.
pub proof fn size_grows_by_entry(block_size: usize, s: Seq<Entry<KeyView>>, e: Entry<KeyView>)
    ensures
        InMemoryTableBuilder::size_of(block_size, Seq::empty()) == 0,
        ({
            let more = InMemoryTableBuilder::size_of(block_size, s) + 14 + e.key.key.len() + e.value.len();
            InMemoryTableBuilder::size_of(block_size, s.push(e)) == if more <= usize::MAX {
                more
            } else {
                usize::MAX as int
            }
        }),
{
    assert(s.push(e).drop_last() =~= s);
}

/// An entry that is added comes last, and shows in the size.
pub proof fn added_entries_come_last(
    builder: &mut InMemoryTableBuilder,
    key: KeySlice<'_>,
    value: &[u8],
    before: usize,
    after: usize,
)
    requires
        call_ensures(<InMemoryTableBuilder as TableBuilder>::estimated_size, (&*builder,), before),
        call_ensures(<InMemoryTableBuilder as TableBuilder>::add, (builder, key, value), ()),
        call_ensures(<InMemoryTableBuilder as TableBuilder>::estimated_size, (&*final(builder),), after),
    ensures
        final(builder).entries().len() == old(builder).entries().len() + 1,
        final(builder).entries().last().key == key@,
        final(builder).entries().last().value == value@,
        forall|i: int|
            0 <= i < old(builder).entries().len() ==> #[trigger] final(builder).entries()[i] == old(
                builder,
            ).entries()[i],
        before + 14 + key@.key.len() + value@.len() <= usize::MAX ==> after == before + 14 + key@.key.len()
            + value@.len(),
{
    let s = builder.entries();
    size_grows_by_entry(builder.block_size(), s, Entry { key: key@, value: value@ });
}

/// A table is built of the entries added, under the number given, where its size does not pass the limit.
pub proof fn tables_are_built_within_the_limit(
    builder: InMemoryTableBuilder,
    id: usize,
    limit: Option<usize>,
    size: usize,
    result: Result<InMemoryTable, StorageError>,
)
    requires
        call_ensures(<InMemoryTableBuilder as TableBuilder>::estimated_size, (&builder,), size),
        call_ensures(<InMemoryTableBuilder as TableBuilder>::build, (builder, id, &limit), result),
    ensures
        result is Ok <==> (limit matches Some(l) ==> size <= l),
        result matches Ok(table) ==> table.entries() == builder.entries() && table.id() == id && table.damaged() is None,
{
}

/// A damaged table cannot be opened where its first entry is the damaged one, and else can be read up to
/// that; without damage all of it can be read.
pub proof fn damage_is_met_where_it_is(table: InMemoryTable, idx: usize)
    requires
        table.damaged() matches Some(d) ==> d.idx == idx,
    ensures
        table.open_error() == if table.damaged() is Some && idx == 0 && table.entries().len() > 0 {
            Some(table.damaged()->0.message@)
        } else {
            None
        },
        table.fault() is Some <==> table.damaged() is Some && 0 < idx < table.entries().len(),
        table.fault() matches Some(f) ==> f.after == idx - 1 && f.error == table.damaged()->0.message@,
{
}

/// An iterator over a table in memory starts at the first entry of the table.
pub proof fn tables_in_memory_are_read_from_the_start(
    table: Arc<InMemoryTable>,
    result: Result<InMemoryTableIterator, StorageError>,
    len: usize,
    id: usize,
)
    requires
        call_ensures(<InMemoryTable as Table>::create_and_seek_to_first, (table,), result),
        call_ensures(InMemoryTable::len, (&*table,), len),
        call_ensures(<InMemoryTable as Table>::sst_id, (&*table,), id),
    ensures
        len == table.entries().len(),
        id == table.id(),
        result matches Ok(iter) ==> iter.entries() == table.entries(),
{
}

/// Damage is where it was put, and the rest of the table stays.
pub proof fn damage_is_put(table: InMemoryTable, damage: Damage, damaged: InMemoryTable)
    requires
        call_ensures(InMemoryTable::with_damage, (table, damage), damaged),
    ensures
        damaged.damaged() == Some(damage),
        damaged.entries() == table.entries(),
        damaged.id() == table.id(),
{
}

} // verus!
