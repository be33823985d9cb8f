pub mod cell;
pub mod context;
pub mod rect;

pub use self::cell::Cell;
pub use self::cell::CellLocation;
pub use self::cell::CellRange;
pub use self::context::EvalContext;
pub use self::rect::width;
pub use self::rect::Rect;
