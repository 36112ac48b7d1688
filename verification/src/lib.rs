//! Integer and text logic of a main-sequence stellar structure solver: the
//! ordering of table axes, bracketing of a value on a sorted axis, the parse
//! of tabulated opacities, the grouping of convective shells into mixing
//! zones, and the layout of the residual vector of the Henyey scheme.
pub mod bracket;
pub mod mixing;
pub mod order;
pub mod residuals;
pub mod table;
pub mod table_laws;
pub mod text;
pub mod text_laws;
