//! Core of the Vortex shader graph editor: chunked output with line wrapping, shader
//! expressions with their lowering and code generation, import de-duplication, the node
//! graph's commands and bookkeeping, and the small value types of the editor's widgets.

pub mod output_chunk;
pub mod expr;
pub mod lower_typecasts;
pub mod codegen;
pub mod operator;
pub mod attributes;
pub mod overlays;
pub mod text;
pub mod shader_imports;
pub mod shader_assembly;
pub mod catalog;
pub mod recent_colors;
pub mod preview;
pub mod entity_set;
pub mod graph;
pub mod graph_state;
pub mod color_gradient;
