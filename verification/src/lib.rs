//! Verified core of a simulated X-ray diffraction pipeline.
//!
//! The crate covers the stages of the pipeline whose content is exact
//! arithmetic and bookkeeping: grouping Miller indices into symmetry
//! families, planning the merge of angularly close peaks, and validating
//! that index-aligned inputs agree in length.  The floating-point stages
//! (scattering factors, structure factors, Lorentz correction,
//! normalization) live outside the verified library and hand it plain
//! values.

pub mod align;
pub mod families;
pub mod merge;
