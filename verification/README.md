# vortex_gen

The verified core of the Vortex shader graph editor, written in Verus.

- `src/` is the library. Each public function carries a contract that Verus proves:
  - `output_chunk`: chunks of output code, their lengths, flattening, and formatting with
    line wrapping;
  - `expr`, `lower_typecasts`, `codegen`: shader expressions, the lowering of type casts into
    constructors and swizzles, and code generation into output chunks;
  - `shader_imports`, `shader_assembly`: de-duplicated import trees and the parts of a shader;
  - `graph`, `graph_state`, `entity_set`: a plain model of the node graph's entities, the
    commands that mark, delete and connect nodes, and the graph's id and undo bookkeeping;
  - `catalog`, `recent_colors`, `color_gradient`, `preview`, `operator`, `attributes`,
    `overlays`: small value types of the editor and its widgets.
- `tests/` exercises the library on concrete values.
- `app/` is the engine-side glue: engine components and commands that read the world into
  the library's model and write its decisions back, conversions from float-valued engine
  types, and the float geometry that the library does not hold.
