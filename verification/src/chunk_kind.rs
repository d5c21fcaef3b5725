//! The semantic kind of a code chunk.

use crate::text;
use vstd::prelude::*;

verus! {

/// Represents the semantic kind of a code chunk.
///
/// Using a dedicated enum eliminates string-based bugs and makes merging logic
/// easier to reason about.
#[derive(Debug, Clone, Copy, PartialEq, Eq, Hash, Structural)]
pub enum ChunkKind {
    Function,
    Impl,
    Struct,
    Enum,
    Trait,
    Mod,
    Macro,
    Const,
    Static,
    Type,
    Use,
    Gap,
    Mixed,
    Unknown,
}

impl ChunkKind {
    /// The name under which the kind is shown.
    pub open spec fn label(self) -> Seq<char> {
        match self {
            ChunkKind::Function => "function"@,
            ChunkKind::Impl => "impl"@,
            ChunkKind::Struct => "struct"@,
            ChunkKind::Enum => "enum"@,
            ChunkKind::Trait => "trait"@,
            ChunkKind::Mod => "mod"@,
            ChunkKind::Macro => "macro"@,
            ChunkKind::Const => "const"@,
            ChunkKind::Static => "static"@,
            ChunkKind::Type => "type"@,
            ChunkKind::Use => "use"@,
            ChunkKind::Gap => "module_gap"@,
            ChunkKind::Mixed => "mixed_semantic_block"@,
            ChunkKind::Unknown => "unknown"@,
        }
    }

    /// The name under which the kind is shown.
    pub fn as_str(&self) -> (r: &'static str)
        ensures
            r@ == self.label(),
    {
        match self {
            ChunkKind::Function => "function",
            ChunkKind::Impl => "impl",
            ChunkKind::Struct => "struct",
            ChunkKind::Enum => "enum",
            ChunkKind::Trait => "trait",
            ChunkKind::Mod => "mod",
            ChunkKind::Macro => "macro",
            ChunkKind::Const => "const",
            ChunkKind::Static => "static",
            ChunkKind::Type => "type",
            ChunkKind::Use => "use",
            ChunkKind::Gap => "module_gap",
            ChunkKind::Mixed => "mixed_semantic_block",
            ChunkKind::Unknown => "unknown",
        }
    }
}

/// The kind that a name stands for: a shown name or the name of a node in the Rust grammar.
pub open spec fn kind_of(s: Seq<char>) -> ChunkKind {
    if s == "function"@ || s == "function_item"@ {
        ChunkKind::Function
    } else if s == "impl"@ || s == "impl_item"@ {
        ChunkKind::Impl
    } else if s == "struct"@ || s == "struct_item"@ {
        ChunkKind::Struct
    } else if s == "enum"@ || s == "enum_item"@ {
        ChunkKind::Enum
    } else if s == "trait"@ || s == "trait_item"@ {
        ChunkKind::Trait
    } else if s == "mod"@ || s == "mod_item"@ {
        ChunkKind::Mod
    } else if s == "macro_definition"@ {
        ChunkKind::Macro
    } else if s == "const"@ || s == "const_item"@ {
        ChunkKind::Const
    } else if s == "static"@ || s == "static_item"@ {
        ChunkKind::Static
    } else if s == "type"@ || s == "type_item"@ {
        ChunkKind::Type
    } else if s == "use"@ || s == "use_declaration"@ {
        ChunkKind::Use
    } else if s == "module_gap"@ {
        ChunkKind::Gap
    } else if s == "mixed_semantic_block"@ {
        ChunkKind::Mixed
    } else {
        ChunkKind::Unknown
    }
}

impl<'a> From<&'a str> for ChunkKind {
    fn from(s: &'a str) -> (r: Self) {
        if text::same_text(s, "function") || text::same_text(s, "function_item") {
            ChunkKind::Function
        } else if text::same_text(s, "impl") || text::same_text(s, "impl_item") {
            ChunkKind::Impl
        } else if text::same_text(s, "struct") || text::same_text(s, "struct_item") {
            ChunkKind::Struct
        } else if text::same_text(s, "enum") || text::same_text(s, "enum_item") {
            ChunkKind::Enum
        } else if text::same_text(s, "trait") || text::same_text(s, "trait_item") {
            ChunkKind::Trait
        } else if text::same_text(s, "mod") || text::same_text(s, "mod_item") {
            ChunkKind::Mod
        } else if text::same_text(s, "macro_definition") {
            ChunkKind::Macro
        } else if text::same_text(s, "const") || text::same_text(s, "const_item") {
            ChunkKind::Const
        } else if text::same_text(s, "static") || text::same_text(s, "static_item") {
            ChunkKind::Static
        } else if text::same_text(s, "type") || text::same_text(s, "type_item") {
            ChunkKind::Type
        } else if text::same_text(s, "use") || text::same_text(s, "use_declaration") {
            ChunkKind::Use
        } else if text::same_text(s, "module_gap") {
            ChunkKind::Gap
        } else if text::same_text(s, "mixed_semantic_block") {
            ChunkKind::Mixed
        } else {
            ChunkKind::Unknown
        }
    }
}

impl<'a> vstd::std_specs::convert::FromSpecImpl<&'a str> for ChunkKind {
    open spec fn obeys_from_spec() -> bool {
        true
    }

    open spec fn from_spec(s: &'a str) -> Self {
        kind_of(s@)
    }
}

/// Every kind but `Macro`, whose shown name is not among the names that are read, is read
/// back from its shown name.
pub proof fn law_label_is_read_back(kind: ChunkKind)
    requires
        kind != ChunkKind::Macro,
    ensures
        kind_of(kind.label()) == kind,
{
    reveal_strlit("function");
    assert("function"@.len() == 8);
    reveal_strlit("function_item");
    assert("function_item"@.len() == 13);
    reveal_strlit("impl");
    assert("impl"@.len() == 4);
    reveal_strlit("impl_item");
    assert("impl_item"@.len() == 9);
    reveal_strlit("struct");
    assert("struct"@.len() == 6);
    reveal_strlit("struct_item");
    assert("struct_item"@.len() == 11);
    reveal_strlit("enum");
    assert("enum"@.len() == 4);
    reveal_strlit("enum_item");
    assert("enum_item"@.len() == 9);
    reveal_strlit("trait");
    assert("trait"@.len() == 5);
    reveal_strlit("trait_item");
    assert("trait_item"@.len() == 10);
    reveal_strlit("mod");
    assert("mod"@.len() == 3);
    reveal_strlit("mod_item");
    assert("mod_item"@.len() == 8);
    reveal_strlit("macro_definition");
    assert("macro_definition"@.len() == 16);
    reveal_strlit("const");
    assert("const"@.len() == 5);
    reveal_strlit("const_item");
    assert("const_item"@.len() == 10);
    reveal_strlit("static");
    assert("static"@.len() == 6);
    reveal_strlit("static_item");
    assert("static_item"@.len() == 11);
    reveal_strlit("type");
    assert("type"@.len() == 4);
    reveal_strlit("type_item");
    assert("type_item"@.len() == 9);
    reveal_strlit("use");
    assert("use"@.len() == 3);
    reveal_strlit("use_declaration");
    assert("use_declaration"@.len() == 15);
    reveal_strlit("module_gap");
    assert("module_gap"@.len() == 10);
    reveal_strlit("mixed_semantic_block");
    assert("mixed_semantic_block"@.len() == 20);
    reveal_strlit("unknown");
    assert("unknown"@.len() == 7);
    let s = kind.label();
    match kind {
        ChunkKind::Function => {
            assert(s[0] != "mod_item"@[0]);
        },
        ChunkKind::Impl => {
            assert(s[0] != "enum"@[0]);
            assert(s[0] != "type"@[0]);
        },
        ChunkKind::Struct => {
            assert(s[2] != "static"@[2]);
        },
        ChunkKind::Enum => {
            assert(s[0] != "impl"@[0]);
            assert(s[0] != "type"@[0]);
        },
        ChunkKind::Trait => {
            assert(s[0] != "const"@[0]);
        },
        ChunkKind::Mod => {
            assert(s[0] != "use"@[0]);
        },
        ChunkKind::Const => {
            assert(s[0] != "trait"@[0]);
        },
        ChunkKind::Static => {
            assert(s[2] != "struct"@[2]);
        },
        ChunkKind::Type => {
            assert(s[0] != "impl"@[0]);
            assert(s[0] != "enum"@[0]);
        },
        ChunkKind::Use => {
            assert(s[0] != "mod"@[0]);
        },
        ChunkKind::Gap => {
            assert(s[0] != "trait_item"@[0]);
            assert(s[0] != "const_item"@[0]);
        },
        _ => {},
    }
}

/// Any other name is of no known kind.
pub proof fn law_other_names_are_unknown(s: Seq<char>)
    ensures
        kind_of(s) != ChunkKind::Unknown ==> s == kind_of(s).label() || s == "macro_definition"@ || s
            == "use_declaration"@ || (kind_of(s) != ChunkKind::Gap && kind_of(s) != ChunkKind::Mixed
            && s == kind_of(s).label() + "_item"@),
{
    reveal_strlit("_item");
    assert("_item"@.len() == 5);
    reveal_strlit("function");
    reveal_strlit("function_item");
    assert("function_item"@ == "function"@ + "_item"@);
    reveal_strlit("impl");
    reveal_strlit("impl_item");
    assert("impl_item"@ == "impl"@ + "_item"@);
    reveal_strlit("struct");
    reveal_strlit("struct_item");
    assert("struct_item"@ == "struct"@ + "_item"@);
    reveal_strlit("enum");
    reveal_strlit("enum_item");
    assert("enum_item"@ == "enum"@ + "_item"@);
    reveal_strlit("trait");
    reveal_strlit("trait_item");
    assert("trait_item"@ == "trait"@ + "_item"@);
    reveal_strlit("mod");
    reveal_strlit("mod_item");
    assert("mod_item"@ == "mod"@ + "_item"@);
    reveal_strlit("const");
    reveal_strlit("const_item");
    assert("const_item"@ == "const"@ + "_item"@);
    reveal_strlit("static");
    reveal_strlit("static_item");
    assert("static_item"@ == "static"@ + "_item"@);
    reveal_strlit("type");
    reveal_strlit("type_item");
    assert("type_item"@ == "type"@ + "_item"@);
}

} // verus!
