//! Font subsetting: the configuration, the integer containers and the planning rules
//! that decide which glyphs and tables of a font face survive, and under which ids.
//!
//! # What is subsetting?
//! Subsetting reduces the codepoint coverage of a font and removes all data that is no longer
//! needed. A [`SubsetInput`] describes the desired subset. Together with a [`FontFace`] it
//! gives a [`SubsetPlan`]: the glyphs that stay, their new ids, and what becomes of each
//! table. Executing the plan gives the new, smaller face.
//!
//! # Layers
//! [`IntSet`] and [`IntMap`] are the containers that everything else is described with.
//! [`closure`] finds the glyphs that a subset must hold, [`remap`] numbers them, and [`plan`]
//! puts both together and carries the result out. [`sfnt`] reads and writes the table
//! directory of a font file, and [`rewrite`] puts the tables of a subset together.

pub mod blob;
pub mod closure;
pub mod common;
pub mod error;
pub mod flags;
pub mod font_face;
pub mod map;
pub mod pairs;
pub mod plan;
pub mod remap;
pub mod rewrite;
pub mod set;
pub mod sfnt;
pub mod spans;
pub mod subset;
pub mod text;

pub use crate::blob::Blob;
pub use crate::common::{Language, Tag};
pub use crate::error::{AllocationError, FontFaceExtractionError, SubsettingError};
pub use crate::flags::Flags;
pub use crate::font_face::{FontFace, NameRecord, Substitution};
pub use crate::map::{IntMap, Iter, IterImpl};
pub use crate::plan::{SubsetPlan, TableAction};
pub use crate::set::{Bound, CharSet, Element, InnerSetIter, IntSet, SetIter, TagSet, U32Set};
pub use crate::subset::{FlagRef, SubsetInput};
