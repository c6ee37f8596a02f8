pub mod frame;
pub mod idmap;
pub mod manifold;
pub mod permdimensions2d;
pub mod scale;
pub mod slotmap;

pub use self::frame::{Depth, Direction, EventMap, QtmEdge};
pub use self::manifold::{Heritage, ManifoldState, Retain, TransitionReceipt};
pub use self::scale::Scale;
pub use self::slotmap::{
    EventId, QtmEvent, QtmGraph, QuantumTransaction, SurfaceCoordinate, SurfaceId, SurfaceNode,
};
