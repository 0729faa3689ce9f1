//! The partition table, held as `esp_idf_part::PartitionTable`, and the
//! choice of the partition that receives the application.

use vstd::prelude::*;

use esp_idf_part::PartitionTable;

verus! {

#[verifier::external_type_specification]
#[verifier::external_body]
pub struct ExPartitionTable(esp_idf_part::PartitionTable);

/// What the placement logic reads of a partition.
pub struct PartitionModel {
    pub name: Seq<char>,
    pub is_app: bool,
    pub offset: u32,
    pub size: u32,
}

/// The partitions of a table, in table order.
pub uninterp spec fn table_partitions(t: PartitionTable) -> Seq<PartitionModel>;

/// The binary form of a table.
pub uninterp spec fn table_bin(t: PartitionTable) -> Seq<u8>;

/// Offset and size of the first partition named `name`.
pub open spec fn find_named(parts: Seq<PartitionModel>, name: Seq<char>) -> Option<(u32, u32)>
    decreases parts.len(),
{
    if parts.len() == 0 {
        None
    } else if parts[0].name == name {
        Some((parts[0].offset, parts[0].size))
    } else {
        find_named(parts.skip(1), name)
    }
}

/// Offset and size of the first partition of type `app`.
pub open spec fn find_app(parts: Seq<PartitionModel>) -> Option<(u32, u32)>
    decreases parts.len(),
{
    if parts.len() == 0 {
        None
    } else if parts[0].is_app {
        Some((parts[0].offset, parts[0].size))
    } else {
        find_app(parts.skip(1))
    }
}

/// The name of the preferred application partition.
pub open spec fn factory_name() -> Seq<char> {
    seq!['f', 'a', 'c', 't', 'o', 'r', 'y']
}

/// Offset and size of the partition that receives the application: the one
/// named "factory", else the first of type `app`.
pub open spec fn app_partition(parts: Seq<PartitionModel>) -> Option<(u32, u32)> {
    match find_named(parts, factory_name()) {
        Some(p) => Some(p),
        None => find_app(parts),
    }
}

/// Most partitions whose records, with the checksum record, fit the table's
/// binary form.
pub const MAX_PARTITIONS: usize = 95;

/// Relies on `PartitionTable::partitions`: the table's partitions.
#[verifier::external_body]
pub(crate) fn partition_count(t: &PartitionTable) -> (r: usize)
    ensures
        r == table_partitions(*t).len(),
{
    t.partitions().len()
}

/// Relies on `PartitionTable::find`: the first partition whose name equals
/// `name`, by its offset and size.
#[verifier::external_body]
pub(crate) fn find_partition(t: &PartitionTable, name: &str) -> (r: Option<(u32, u32)>)
    ensures
        r == find_named(table_partitions(*t), name@),
{
    t.find(name).map(|p| (p.offset(), p.size()))
}

/// Relies on `PartitionTable::find_by_type` with `Type::App`: the first
/// partition of type `app`, by its offset and size.
#[verifier::external_body]
pub(crate) fn find_app_partition(t: &PartitionTable) -> (r: Option<(u32, u32)>)
    ensures
        r == find_app(table_partitions(*t)),
{
    t.find_by_type(esp_idf_part::Type::App).map(|p| (p.offset(), p.size()))
}

/// Relies on `PartitionTable::to_bin`: the table's binary form, 0xC00 bytes.
/// It writes only into a `Vec` and an MD5 context, neither of which fails;
/// it panics where the records leave no room for the checksum record.
#[verifier::external_body]
pub(crate) fn partition_table_bin(t: &PartitionTable) -> (r: Option<Vec<u8>>)
    requires
        table_partitions(*t).len() <= MAX_PARTITIONS,
    ensures
        r is Some,
        r matches Some(v) ==> v@ == table_bin(*t) && v@.len() == 0xC00,
{
    t.to_bin().ok()
}

/// Chooses the partition that receives the application: the one named
/// "factory", else the first of type `app`.
pub fn select_app_partition(t: &PartitionTable) -> (r: Option<(u32, u32)>)
    ensures
        r == app_partition(table_partitions(*t)),
{
    proof {
        reveal_strlit("factory");
    }
    let name = "factory";
    assert(name@ =~= factory_name());
    match find_partition(t, name) {
        Some(p) => Some(p),
        None => find_app_partition(t),
    }
}

} // verus!
