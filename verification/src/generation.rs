//! Errors of the generation passes.

use crate::column_pass::Family;
use crate::error::FormatError;
use crate::value::ValueKind;
use vstd::prelude::*;

verus! {

/// A record that does not decode.
#[derive(Debug)]
#[allow(inconsistent_fields)]
pub enum CodecError {
    /// A value of a kind that has no record.
    UnsupportedValue(ValueKind),
    /// The ID index does not consist of whole records.
    IdIndexLength(usize),
    /// The ID index is not sorted.
    IdIndexOrder {
        /// Record that breaks the order.
        record: usize,
        /// Its id.
        id: u64,
        /// The id before it.
        prev: u64,
    },
    /// A record ends before its last field.
    Truncated,
    /// A text field is not UTF-8.
    InvalidText,
    /// A value begins with a tag of no kind.
    UnknownTag(u8),
    /// More labels than a record counts.
    LabelCount(usize),
    /// A label longer than a record counts.
    LabelLength(usize),
    /// An edge type longer than a record counts.
    EdgeTypeLength(usize),
    /// A key is not as wide as its domain has it.
    KeyWidth(usize),
    /// A payload is not as wide as its domain has it.
    PayloadWidth(usize),
    /// A row names a label that is not in the schema.
    UnknownLabel,
    /// An edge belongs to a relationship table that is not in the schema.
    UnknownRelTable,
    /// A text has no code in the dictionary.
    NotInterned,
    /// An occurrence belongs to a column without a geometry.
    UnknownColumn,
    /// Occurrences and geometries list their columns in different orders.
    ColumnOrder,
    /// A remap record serves a use that is none of the known ones.
    UnknownUse(u8),
    /// A record goes on after its last field.
    TrailingBytes,
    /// A labelled row has no entry in the ID index.
    UnknownNode(u64),
    /// A column has entries in rows that its table does not have.
    RowsBeyondTable,
    /// An encoded column has not as many rows as its plan gives it.
    EncodedRows {
        /// The column.
        column: usize,
    },
    /// An encoded column is not under the codec that its plan asks for.
    EncodedKind {
        /// The column.
        column: usize,
    },
    /// An encoded column has not the texts that its plan gives it.
    EncodedTexts {
        /// The column.
        column: usize,
    },
    /// The arrays of an adjacency do not hold what its tables ask for.
    AdjacencyLength,
    /// A row or an edge of a base table has no original id.
    NoOriginalId {
        /// The table.
        table: usize,
        /// The row or position.
        row: usize,
    },
    /// An edge of a base table has no source.
    NoSource,
    /// An edge of a base table has no destination.
    NoDestination,
    /// The source of an edge of a base table has no original id.
    SourceWithoutId,
    /// The destination of an edge of a base table has no original id.
    DestinationWithoutId,
}

/// What a machine integer of the wire format counts.
#[derive(Debug, Clone, Copy, PartialEq, Eq, Structural)]
pub enum WireCount {
    /// Bytes of a property key.
    KeyLength,
    /// Bytes of a text value.
    TextLength,
    /// Dimensions of a vector value.
    VectorLength,
    /// Properties of a row.
    PropertyCount,
    /// Bytes of all texts of a column's dictionary.
    DictBytes,
    /// Texts of a column's dictionary.
    DictEntries,
    /// Bytes of the name of a column's dictionary.
    DictName,
    /// Node tables.
    NodeTableId,
    /// Relationship tables.
    RelTableId,
    /// Rows of a table.
    RowCount,
    /// Offset of a column body.
    ColumnBodyOffset,
    /// Bytes of a column body.
    ColumnBodyLength,
    /// Position in an adjacency.
    CsrPosition,
    /// Entries of a wire collection.
    Collection,
}

/// What is wrong with an input that a generation is asked to take in.
#[derive(Debug, Clone, Copy, PartialEq, Eq, Structural)]
pub enum InputError {
    /// There is no node table of this number.
    NoNodeTable(usize),
    /// There is no relationship table of this number.
    NoRelTable(usize),
    /// A node of the overlay has no labels.
    OverlayNodeWithoutLabels(u64),
}

/// The limit of a budget that a request would exceed.
#[derive(Debug, Clone, Copy, PartialEq, Eq, Structural)]
pub enum BudgetCounter {
    /// Bytes of one record.
    MaxRecordBytes,
}

/// How the values of a column differ.
#[derive(Debug, Clone, Copy, PartialEq, Eq, Structural)]
pub enum Mixture {
    /// Values of two families.
    Families(Family, Family),
    /// Vectors of two lengths.
    VectorLengths,
}

/// Why a generation build failed.
#[derive(Debug)]
#[allow(inconsistent_fields)]
pub enum GenerationError {
    /// A record does not decode.
    Codec(CodecError),
    /// Two nodes with one original id.
    DuplicateNodeId(u64),
    /// Two edges with one original id.
    DuplicateEdgeId(u64),
    /// A property has a value that columns do not store.
    UnsupportedValue(ValueKind),
    /// A count is too large for its field.
    WireWidthOverflow {
        /// What was counted.
        what: WireCount,
        /// The count.
        count: u64,
        /// The largest count the field holds.
        max: u64,
    },
    /// An input that no generation can take in.
    InvalidInput(InputError),
    /// A node without a label, or with labels out of order.
    InvalidLabels {
        /// The node.
        node_id: u64,
    },
    /// An edge names a node that is not there.
    MissingEndpoint {
        /// The edge.
        edge_id: u64,
        /// The node it names.
        node_id: u64,
        /// Whether it names it as its source.
        is_source: bool,
    },
    /// An edge ends in a table that its declaration does not name.
    WrongTableEndpoint {
        /// The edge.
        edge_id: u64,
        /// The node.
        node_id: u64,
        /// Table that the declaration is held against.
        expected_table: u16,
        /// Table of the node.
        actual_table: u16,
        /// Whether the node is its source.
        is_source: bool,
    },
    /// A column holds values of families that no one codec stores.
    MixedColumnTypes {
        /// Table of the column.
        table_id: u16,
        /// What was found in it.
        kinds: Mixture,
    },
    /// The payload cannot be written.
    Format(FormatError),
    /// A resource budget would be exceeded.
    BudgetExceeded {
        /// The limit that was met.
        counter: BudgetCounter,
        /// The bytes asked for.
        requested: u64,
        /// The limit.
        limit: u64,
    },
}

} // verus!
