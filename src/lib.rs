//! Annotated two-dimensional data: dimension cells, row selections, frame
//! indices, axis-aligned array collections and virtual stacking of arrays
//! along the first axis, with the invariants that tie them together.
use vstd::prelude::*;

pub mod error;
pub mod dim;
pub mod selection;
pub mod vecvec;
pub mod array;
pub mod stacked;
pub mod index;
pub mod dataframe;
pub mod frame;
pub mod text;
pub mod collection;
pub mod axis;
pub mod anndata;
pub mod dataset;

pub use crate::anndata::AnnData;
pub use crate::array::{ArrayData, Encoding};
pub use crate::axis::{Axis, AxisArrays, InnerAxisArrays, StackedAxisArrays};
pub use crate::collection::{Data, ElemCollection, InnerElemCollection};
pub use crate::dataframe::{DataFrameIndex, IndexRecord};
pub use crate::frame::{frame_shape, overwrite_frame, read_frame, select_frame, write_frame, FrameRecord};
pub use crate::dataset::{AnnDataSet, SelectPlan, StackedAnnData};
pub use crate::dim::Dim;
pub use crate::error::AnnError;
pub use crate::index::{Index, Interval};
pub use crate::selection::{SelectInfoElem, Slice};
pub use crate::stacked::StackedArrayElem;
pub use crate::vecvec::{reverse_mapping, VecVecIndex};

verus! {

} // verus!
