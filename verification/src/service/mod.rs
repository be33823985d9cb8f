pub mod formula_graph;
pub mod service;
pub mod spatial;

pub use self::formula_graph::FormulaGraph;
pub use self::formula_graph::InsertResult;
pub use self::service::CellsService;
pub use self::service::MemoryCellsService;
