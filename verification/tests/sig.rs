use rustc_utils::sig::{
    Arg, BareFnTy, Constness, Def, DefId, DefKind, Defaultness, FnDecl, GenericParam, Generics, Id,
    ImplPolarity, Item, ItemKind, MutTy, Mutability, Path, QSelf, SigElement, Ty, TyKind,
    Unsafety,
};

fn def(kind: DefKind, index: u32) -> Def {
    Def { kind, def_id: DefId { krate: 0, index } }
}

fn path(segs: &[&str]) -> Path {
    Path { segments: segs.iter().map(|s| s.to_string()).collect() }
}

fn path_ty(segs: &[&str], index: u32) -> Ty {
    Ty { node: TyKind::Path(None, path(segs), def(DefKind::Other, index)) }
}

fn elem(index: u32, start: usize, end: usize) -> SigElement {
    SigElement { id: Id { krate: 0, index }, start, end }
}

#[test]
fn path_names_its_last_segment() {
    let s = path(&["std", "vec", "Vec<T>"]).make(3, Some(def(DefKind::Other, 7))).unwrap();
    assert_eq!(s.text, "Vec<T>");
    assert!(s.defs.is_empty());
    assert_eq!(s.refs, vec![elem(7, 3, 9)]);
}

#[test]
fn variant_path_keeps_its_enum() {
    let s = path(&["std", "option", "Option", "Some"]).make(10, Some(def(DefKind::Variant, 2))).unwrap();
    assert_eq!(s.text, "Option::Some");
    assert_eq!(s.refs, vec![elem(2, 18, 22)]);
    assert_eq!(&s.text[s.refs[0].start - 10..s.refs[0].end - 10], "Some");
}

#[test]
fn path_errors() {
    assert_eq!(path(&["x"]).make(0, None).err(), Some("Missing id for Path"));
    assert_eq!(path(&["Some"]).make(0, Some(def(DefKind::VariantCtor, 1))).err(), Some("Bad path"));
    assert_eq!(path(&[]).make(0, Some(def(DefKind::Other, 1))).err(), Some("Bad path"));
}

#[test]
fn reference_to_slice() {
    let slice = Ty { node: TyKind::Slice(Box::new(path_ty(&["u8"], 5))) };
    let t = Ty {
        node: TyKind::Rptr(
            Some("'a".to_string()),
            MutTy { ty: Box::new(slice), mutbl: Mutability::Mutable },
        ),
    };
    let s = t.make(0).unwrap();
    assert_eq!(s.text, "&'a mut [u8]");
    assert_eq!(s.refs, vec![elem(5, 9, 11)]);
}

#[test]
fn tuple_of_pointer() {
    let ptr = Ty {
        node: TyKind::Ptr(MutTy { ty: Box::new(path_ty(&["T"], 6)), mutbl: Mutability::Immutable }),
    };
    let t = Ty { node: TyKind::Tup(vec![path_ty(&["u8"], 5), ptr]) };
    let s = t.make(100).unwrap();
    assert_eq!(s.text, "(u8,*const T,)");
    assert_eq!(s.refs, vec![elem(5, 101, 103), elem(6, 111, 112)]);
}

#[test]
fn function_pointer() {
    let f = BareFnTy {
        lifetimes: vec!["'a".to_string(), "'b".to_string()],
        unsafety: Unsafety::Unsafe,
        abi: Some("\"C\"".to_string()),
        inputs: vec![path_ty(&["u8"], 5)],
        output: Some(Box::new(path_ty(&["bool"], 9))),
    };
    let s = Ty { node: TyKind::BareFn(f) }.make(0).unwrap();
    let expected = "for<'a, 'b>unsafe extern\"C\" fn(u8,) -> bool,";
    assert_eq!(s.text, expected);
    let u8_at = expected.find("u8").unwrap();
    let bool_at = expected.find("bool").unwrap();
    assert_eq!(s.refs, vec![elem(5, u8_at, u8_at + 2), elem(9, bool_at, bool_at + 4)]);
}

#[test]
fn plain_function_pointer() {
    let f = BareFnTy { lifetimes: vec![], unsafety: Unsafety::Normal, abi: None, inputs: vec![], output: None };
    let s = Ty { node: TyKind::BareFn(f) }.make(0).unwrap();
    assert_eq!(s.text, "fn()");
    assert!(s.refs.is_empty());
}

#[test]
fn qualified_paths() {
    let q = QSelf { ty: Box::new(path_ty(&["T"], 1)), position: 1 };
    let t = Ty { node: TyKind::Path(Some(q), path(&["Iterator", "Item"]), def(DefKind::Other, 3)) };
    let s = t.make(0).unwrap();
    assert_eq!(s.text, "<T as Iterator>::Item");
    assert_eq!(s.refs, vec![elem(3, 17, 21)]);

    let q = QSelf { ty: Box::new(path_ty(&["T"], 1)), position: 0 };
    let t = Ty { node: TyKind::Path(Some(q), path(&["Item"]), def(DefKind::Other, 3)) };
    let s = t.make(0).unwrap();
    assert_eq!(s.text, "<T>::Item");
    assert_eq!(s.refs, vec![elem(3, 5, 9)]);

    let q = QSelf { ty: Box::new(path_ty(&["T"], 1)), position: 2 };
    let t = Ty { node: TyKind::Path(Some(q), path(&["a", "B", "C", "D"]), def(DefKind::Other, 3)) };
    let s = t.make(0).unwrap();
    assert_eq!(s.text, "<T as ...>::...::D");
    assert_eq!(s.refs, vec![elem(3, 17, 18)]);
}

#[test]
fn array_and_bounds() {
    let a = Ty { node: TyKind::Array(Box::new(path_ty(&["u8"], 5)), "N\n+ 1".to_string()) };
    let s = a.make(0).unwrap();
    assert_eq!(s.text, "[u8; N + 1]");
    assert_eq!(s.refs, vec![elem(5, 1, 3)]);

    let o = Ty { node: TyKind::TraitObject("Send + Sync".to_string()) }.make(4).unwrap();
    assert_eq!(o.text, "Send + Sync");
    assert!(o.refs.is_empty());
    let i = Ty { node: TyKind::ImplTrait("Display".to_string()) }.make(4).unwrap();
    assert_eq!(i.text, "impl Display");
    let n = Ty { node: TyKind::Paren(Box::new(Ty { node: TyKind::Never })) }.make(0).unwrap();
    assert_eq!(n.text, "(!)");
}

#[test]
fn types_without_signature() {
    assert_eq!(Ty { node: TyKind::Infer }.make(0).err(), Some("Ty"));
    let inner = Ty { node: TyKind::Slice(Box::new(Ty { node: TyKind::ImplicitSelf })) };
    assert_eq!(inner.make(0).err(), Some("Ty"));
    let bad_arg = Ty { node: TyKind::Tup(vec![path_ty(&["u8"], 5), Ty { node: TyKind::Mac }]) };
    assert_eq!(bad_arg.make(0).err(), Some("Ty"));
}

fn param(name: &str, index: u32, bounds: &[&str]) -> GenericParam {
    GenericParam {
        name: name.to_string(),
        def_id: DefId { krate: 0, index },
        bounds: bounds.iter().map(|b| b.to_string()).collect(),
    }
}

#[test]
fn generics_define_their_parameters() {
    let g = Generics {
        lifetimes: vec![param("'a", 1, &["'b"]), param("'b", 2, &[])],
        ty_params: vec![param("T", 3, &["Clone", "Send"])],
    };
    let s = g.make(10).unwrap();
    assert_eq!(s.text, "<'a: 'b,'b,T: Clone + Send,>");
    assert_eq!(s.defs, vec![elem(1, 11, 13), elem(2, 18, 20), elem(3, 21, 22)]);
    assert!(s.refs.is_empty());
}

#[test]
fn no_generics_no_text() {
    let s = Generics { lifetimes: vec![], ty_params: vec![] }.make(4).unwrap();
    assert_eq!(s.text, "");
    assert!(s.defs.is_empty());
}

fn item(name: &str, path_def: Option<Def>, node: ItemKind) -> Item {
    Item { ident: name.to_string(), def_id: DefId { krate: 0, index: 10 }, path_def, node }
}

fn no_generics() -> Generics {
    Generics { lifetimes: vec![], ty_params: vec![] }
}

#[test]
fn function_item() {
    let t_ref = Ty {
        node: TyKind::Rptr(
            Some("'a".to_string()),
            MutTy { ty: Box::new(path_ty(&["T"], 12)), mutbl: Mutability::Immutable },
        ),
    };
    let decl = FnDecl {
        inputs: vec![
            Arg { pat: "x".to_string(), ty: t_ref },
            Arg { pat: "n".to_string(), ty: path_ty(&["u8"], 5) },
        ],
        output: Some(path_ty(&["bool"], 9)),
    };
    let g = Generics { lifetimes: vec![param("'a", 11, &[])], ty_params: vec![param("T", 12, &["Clone"])] };
    let it = item(
        "foo",
        None,
        ItemKind::Fn(decl, Unsafety::Unsafe, Constness::NotConst, Some("\"C\"".to_string()), g),
    );
    let s = it.make(0).unwrap();
    let expected = "unsafe extern\"C\" fn foo<'a,T: Clone,>(x: &'a T,n: u8,) -> bool,";
    assert_eq!(s.text, expected);
    assert_eq!(s.defs, vec![elem(11, 24, 26), elem(12, 27, 28), elem(10, 5, 8)]);
    let t_at = expected.find("&'a T").unwrap() + 4;
    let u8_at = expected.find("u8").unwrap();
    let bool_at = expected.find("bool").unwrap();
    assert_eq!(s.refs, vec![elem(12, t_at, t_at + 1), elem(5, u8_at, u8_at + 2), elem(9, bool_at, bool_at + 4)]);
}

#[test]
fn const_function_without_arguments() {
    let decl = FnDecl { inputs: vec![], output: None };
    let it = item("f", None, ItemKind::Fn(decl, Unsafety::Normal, Constness::Const, None, no_generics()));
    let s = it.make(0).unwrap();
    assert_eq!(s.text, "const fn f()");
    assert_eq!(s.defs, vec![elem(10, 5, 6)]);
}

#[test]
fn static_and_const_items() {
    let it = item("X", None, ItemKind::Static(path_ty(&["u8"], 5), Mutability::Mutable, "1\n+2".to_string()));
    let s = it.make(0).unwrap();
    assert_eq!(s.text, "static mut X: u8 = 1 +2;");
    assert_eq!(s.defs, vec![elem(10, 11, 12)]);
    assert_eq!(s.refs, vec![elem(5, 14, 16)]);

    let it = item("N", None, ItemKind::Const(path_ty(&["usize"], 6), "3".to_string()));
    let s = it.make(2).unwrap();
    assert_eq!(s.text, "const N: usize = 3;");
    assert_eq!(s.defs, vec![elem(10, 8, 9)]);
    assert_eq!(s.refs, vec![elem(6, 11, 16)]);
}

#[test]
fn module_and_type_alias() {
    let s = item("m", None, ItemKind::Mod).make(0).unwrap();
    assert_eq!(s.text, "mod m;");
    assert_eq!(s.defs, vec![elem(10, 4, 5)]);

    let g = Generics { lifetimes: vec![], ty_params: vec![param("T", 12, &[])] };
    let s = item("A", None, ItemKind::Ty(path_ty(&["Vec<T>"], 7), g)).make(0).unwrap();
    assert_eq!(s.text, "type A<T,> = Vec<T>;");
    assert_eq!(s.defs, vec![elem(12, 7, 8), elem(10, 5, 6)]);
    assert_eq!(s.refs, vec![elem(7, 13, 19)]);
}

#[test]
fn data_types_and_traits() {
    let s = item("S", None, ItemKind::Struct(no_generics())).make(0).unwrap();
    assert_eq!(s.text, "struct S {}");
    assert_eq!(s.defs, vec![elem(10, 5, 6)]);
    assert_eq!(item("E", None, ItemKind::Enum(no_generics())).make(0).unwrap().text, "enum E {}");
    assert_eq!(item("U", None, ItemKind::Union(no_generics())).make(0).unwrap().text, "union U {}");

    let bounds = vec!["Send".to_string(), "Sync".to_string()];
    let s = item("Tr", None, ItemKind::Trait(Unsafety::Unsafe, no_generics(), bounds)).make(0).unwrap();
    assert_eq!(s.text, "unsafe trait Tr: Send + Sync {}");
    assert_eq!(s.defs, vec![elem(10, 5, 7)]);
}

#[test]
fn impls() {
    let g = Generics { lifetimes: vec![], ty_params: vec![param("T", 12, &[])] };
    let it = item(
        "",
        Some(def(DefKind::Other, 20)),
        ItemKind::Impl(
            Unsafety::Normal,
            ImplPolarity::Negative,
            Defaultness::Default,
            g,
            Some(path(&["Send"])),
            path_ty(&["S"], 21),
        ),
    );
    let s = it.make(0).unwrap();
    assert_eq!(s.text, "default impl<T,> !Send for S {}");
    assert_eq!(s.defs, vec![elem(12, 13, 14)]);
    assert_eq!(s.refs, vec![elem(20, 18, 22), elem(21, 27, 28)]);

    let it = item(
        "",
        None,
        ItemKind::Impl(Unsafety::Unsafe, ImplPolarity::Positive, Defaultness::Final, no_generics(), None, path_ty(&["S"], 21)),
    );
    let s = it.make(0).unwrap();
    assert_eq!(s.text, "unsafe impl S {}");
    assert_eq!(s.refs, vec![elem(21, 12, 13)]);

    let it = item("", Some(def(DefKind::Other, 20)), ItemKind::DefaultImpl(Unsafety::Normal, path(&["Send"])));
    let s = it.make(0).unwrap();
    assert_eq!(s.text, "impl Send for .. {}");
    assert_eq!(s.refs, vec![elem(20, 5, 9)]);
}

#[test]
fn items_without_signature() {
    assert_eq!(item("u", None, ItemKind::Use).make(0).err(), Some("import"));
    assert_eq!(item("a", None, ItemKind::GlobalAsm).make(0).err(), Some("glboal asm"));
    assert_eq!(item("m", None, ItemKind::Mac).make(0).err(), Some("Macro"));
    assert_eq!(item("e", None, ItemKind::ForeignMod).make(0).err(), Some("extern mod"));
    assert_eq!(item("c", None, ItemKind::ExternCrate).make(0).err(), Some("extern crate"));
    let it = item("", None, ItemKind::DefaultImpl(Unsafety::Normal, path(&["Send"])));
    assert_eq!(it.make(0).err(), Some("Missing id for Path"));
    let it = item("X", None, ItemKind::Const(Ty { node: TyKind::Infer }, "0".to_string()));
    assert_eq!(it.make(0).err(), Some("Ty"));
}
