use crate::expr::{Expr, ExprView};
use crate::shader_imports::{ImportNodeView, ShaderImports};
use crate::text::str_eq;
use std::sync::Arc;
use vstd::prelude::*;

verus! {

/// The mathematical value of a shader assembly.
pub struct ShaderAssemblyView {
    pub name: Seq<char>,
    pub fragment_value: ExprView,
    pub source: Seq<char>,
    pub imports: ImportNodeView,
    pub includes: Seq<Seq<char>>,
    pub needs_position: bool,
    pub needs_normal: bool,
    pub needs_uv: bool,
}

/// Structure which contains all of the parts of a shader source.
pub struct ShaderAssembly {
    /// Name of this shader.
    name: String,
    /// The expression that represents the return value of the fragment shader
    fragment_value: Arc<Expr>,
    /// Generated code for fragment shader.
    source: String,
    /// Set of imports for the shader.
    imports: ShaderImports,
    /// Code snippets that are included in the shader module.
    includes: Vec<&'static str>,
    /// Whether the fragment shader needs position information.
    pub needs_position: bool,
    /// Whether the fragment shader needs normal information.
    pub needs_normal: bool,
    /// Whether the fragment shader needs texture coordinates.
    pub needs_uv: bool,
}

/// The texts of a sequence of snippets.
pub open spec fn snippets_view(s: Seq<&'static str>) -> Seq<Seq<char>> {
    Seq::new(s.len(), |i: int| s[i]@)
}

/// The color white as a fragment value.
pub open spec fn white() -> ExprView {
    ExprView::ConstColor("1"@, "1"@, "1"@, "1"@)
}

impl View for ShaderAssembly {
    type V = ShaderAssemblyView;

    closed spec fn view(&self) -> ShaderAssemblyView {
        ShaderAssemblyView {
            name: self.name@,
            fragment_value: self.fragment_value@,
            source: self.source@,
            imports: self.imports@,
            includes: snippets_view(self.includes@),
            needs_position: self.needs_position,
            needs_normal: self.needs_normal,
            needs_uv: self.needs_uv,
        }
    }
}

impl ShaderAssemblyView {
    /// The imports form a well-formed tree, and no snippet is included twice.
    pub open spec fn wf(self) -> bool {
        &&& self.imports.wf()
        &&& self.includes.no_duplicates()
    }
}

impl ShaderAssembly {
    /// Create a new shader assembly.
    pub fn new(name: String) -> (res: Self)
        ensures
            res@ == (ShaderAssemblyView {
                name: name@,
                fragment_value: white(),
                source: Seq::empty(),
                imports: crate::shader_imports::empty_node(),
                includes: Seq::empty(),
                needs_position: false,
                needs_normal: false,
                needs_uv: false,
            }),
            res@.wf(),
    {
        let white = Arc::new(
            Expr::ConstColor(
                String::from_str("1"),
                String::from_str("1"),
                String::from_str("1"),
                String::from_str("1"),
            ),
        );
        let res = ShaderAssembly {
            name,
            fragment_value: white,
            source: String::new(),
            imports: ShaderImports::new(),
            includes: Vec::new(),
            needs_position: false,
            needs_normal: false,
            needs_uv: false,
        };
        proof {
            assert(snippets_view(res.includes@) =~= Seq::<Seq<char>>::empty());
            assert(crate::shader_imports::keys_sorted(crate::shader_imports::empty_node().children));
        }
        res
    }

    /// Include a utility function in the shader, unless it is included already.
    pub fn add_include(&mut self, snippet: &'static str)
        ensures
            final(self)@ == (ShaderAssemblyView {
                includes: if old(self)@.includes.contains(snippet@) {
                    old(self)@.includes
                } else {
                    old(self)@.includes.push(snippet@)
                },
                ..old(self)@
            }),
            old(self)@.wf() ==> final(self)@.wf(),
    {
        let ghost sv = snippets_view(self.includes@);
        let ghost before = self@;
        let mut i: usize = 0;
        while i < self.includes.len()
            invariant
                i <= self.includes.len(),
                sv == snippets_view(self.includes@),
                self@ == before,
                before == old(self)@,
                forall|k: int| 0 <= k < i ==> sv[k] != snippet@,
            decreases self.includes.len() - i,
        {
            if str_eq(self.includes[i], snippet) {
                proof {
                    assert(sv[i as int] == snippet@);
                    assert(before.includes.contains(snippet@));
                }
                return ;
            }
            i += 1;
        }
        self.includes.push(snippet);
        proof {
            assert(snippets_view(self.includes@) =~= sv.push(snippet@));
            assert(!sv.contains(snippet@));
        }
    }

    /// Add an import depdenency to the shader.
    pub fn add_import(&mut self, name: &'static str)
        ensures
            final(self)@ == (ShaderAssemblyView {
                imports: crate::shader_imports::insert_path(
                    old(self)@.imports,
                    crate::shader_imports::split_colons(name@),
                ),
                ..old(self)@
            }),
            old(self)@.wf() ==> final(self)@.wf(),
    {
        self.imports.add(name);
    }

    /// Adds the imports that every generated shader uses.
    pub fn add_common_imports(&mut self)
        ensures
            final(self)@ == (ShaderAssemblyView {
                imports: crate::shader_imports::insert_path(
                    crate::shader_imports::insert_path(
                        old(self)@.imports,
                        crate::shader_imports::split_colons("bevy_pbr::mesh_functions"@),
                    ),
                    crate::shader_imports::split_colons(
                        "bevy_pbr::view_transformations::position_world_to_clip"@,
                    ),
                ),
                ..old(self)@
            }),
            old(self)@.wf() ==> final(self)@.wf(),
    {
        self.add_import("bevy_pbr::mesh_functions");
        self.add_import("bevy_pbr::view_transformations::position_world_to_clip");
    }

    /// Set the expression that represents the return value of the fragment shader.
    pub fn set_fragment_value(&mut self, value: Arc<Expr>)
        ensures
            final(self)@ == (ShaderAssemblyView { fragment_value: value@, ..old(self)@ }),
    {
        self.fragment_value = value;
    }

    /// Return the source code for the shader.
    pub fn source(&self) -> (res: &str)
        ensures
            res@ == self@.source,
    {
        self.source.as_str()
    }
}

} // verus!
