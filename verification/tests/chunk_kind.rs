use paladin_commenter::chunk_kind::ChunkKind;

const KINDS: [(ChunkKind, &str); 14] = [
    (ChunkKind::Function, "function"),
    (ChunkKind::Impl, "impl"),
    (ChunkKind::Struct, "struct"),
    (ChunkKind::Enum, "enum"),
    (ChunkKind::Trait, "trait"),
    (ChunkKind::Mod, "mod"),
    (ChunkKind::Macro, "macro"),
    (ChunkKind::Const, "const"),
    (ChunkKind::Static, "static"),
    (ChunkKind::Type, "type"),
    (ChunkKind::Use, "use"),
    (ChunkKind::Gap, "module_gap"),
    (ChunkKind::Mixed, "mixed_semantic_block"),
    (ChunkKind::Unknown, "unknown"),
];

#[test]
fn kinds_have_names() {
    for (kind, name) in KINDS {
        assert_eq!(kind.as_str(), name);
    }
}

#[test]
fn names_are_read_back() {
    for (kind, name) in KINDS {
        if kind != ChunkKind::Macro {
            assert_eq!(ChunkKind::from(name), kind);
        }
    }
    assert_eq!(ChunkKind::from("macro"), ChunkKind::Unknown);
}

#[test]
fn grammar_names_are_read() {
    assert_eq!(ChunkKind::from("function_item"), ChunkKind::Function);
    assert_eq!(ChunkKind::from("impl_item"), ChunkKind::Impl);
    assert_eq!(ChunkKind::from("struct_item"), ChunkKind::Struct);
    assert_eq!(ChunkKind::from("enum_item"), ChunkKind::Enum);
    assert_eq!(ChunkKind::from("trait_item"), ChunkKind::Trait);
    assert_eq!(ChunkKind::from("mod_item"), ChunkKind::Mod);
    assert_eq!(ChunkKind::from("macro_definition"), ChunkKind::Macro);
    assert_eq!(ChunkKind::from("const_item"), ChunkKind::Const);
    assert_eq!(ChunkKind::from("static_item"), ChunkKind::Static);
    assert_eq!(ChunkKind::from("type_item"), ChunkKind::Type);
    assert_eq!(ChunkKind::from("use_declaration"), ChunkKind::Use);
    assert_eq!(ChunkKind::from("source_file"), ChunkKind::Unknown);
    assert_eq!(ChunkKind::from(""), ChunkKind::Unknown);
}
