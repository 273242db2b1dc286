//! Signatures for save-analysis: the text of an item, type, path or list
//! of generic parameters as written in a signature, with the byte ranges in
//! that text of the definitions it introduces and of the references it
//! makes.
//!
//! A syntax node is given by what the signature reads of it: the printed
//! text of its leaves (path segments, bounds, expressions, lifetimes, the
//! ABI), its children, and, where the signature names a definition, that
//! definition (for a path, what the path resolves to; for a generic
//! parameter or an item, its own definition). Where clauses and the
//! bodies of items are not part of signatures.

use vstd::prelude::*;
use vstd::utf8::encode_utf8;

verus! {

/// A definition: its crate and its index in that crate.
#[derive(Clone, Copy, Debug, PartialEq, Eq)]
pub struct DefId {
    pub krate: u32,
    pub index: u32,
}

/// The id of a definition in the save-analysis data.
#[derive(Clone, Copy, Debug, PartialEq, Eq)]
pub struct Id {
    pub krate: u32,
    pub index: u32,
}

/// A definition or reference in a signature: the definition, and the
/// byte range of its name in the text, counted from the start of the
/// enclosing signature.
#[derive(Clone, Copy, Debug, PartialEq, Eq)]
pub struct SigElement {
    pub id: Id,
    pub start: usize,
    pub end: usize,
}

/// A signature: its text, the definitions it introduces and the
/// references it makes.
#[derive(Debug)]
pub struct Signature {
    pub text: String,
    pub defs: Vec<SigElement>,
    pub refs: Vec<SigElement>,
}

/// A signature as values.
#[verifier::ext_equal]
pub struct SigView {
    pub text: Seq<char>,
    pub defs: Seq<SigElement>,
    pub refs: Seq<SigElement>,
}

impl View for Signature {
    type V = SigView;

    open spec fn view(&self) -> SigView {
        SigView { text: self.text@, defs: self.defs@, refs: self.refs@ }
    }
}

/// Whether a pointer or reference is mutable.
#[derive(Clone, Copy, Debug, PartialEq, Eq)]
pub enum Mutability {
    Mutable,
    Immutable,
}

/// Whether a function is unsafe.
#[derive(Clone, Copy, Debug, PartialEq, Eq)]
pub enum Unsafety {
    Unsafe,
    Normal,
}

/// The kind of definition a path resolves to, as far as signatures tell
/// kinds apart.
#[derive(Clone, Copy, Debug, PartialEq, Eq)]
pub enum DefKind {
    AssociatedConst,
    Variant,
    VariantCtor,
    Other,
}

/// What a path resolves to.
#[derive(Clone, Copy, Debug, PartialEq, Eq)]
pub struct Def {
    pub kind: DefKind,
    pub def_id: DefId,
}

/// A path: the printed text of each segment.
#[derive(Debug)]
pub struct Path {
    pub segments: Vec<String>,
}

/// A type with its mutability.
#[derive(Debug)]
pub struct MutTy {
    pub ty: Box<Ty>,
    pub mutbl: Mutability,
}

/// The self type of a qualified path `<T as Trait>::Item`, and how many
/// segments of the path belong to the trait.
#[derive(Debug)]
pub struct QSelf {
    pub ty: Box<Ty>,
    pub position: usize,
}

/// A function pointer type: its lifetimes, safety, ABI (`None` for the
/// Rust ABI, else the ABI as printed), argument types and return type.
#[derive(Debug)]
pub struct BareFnTy {
    pub lifetimes: Vec<String>,
    pub unsafety: Unsafety,
    pub abi: Option<String>,
    pub inputs: Vec<Ty>,
    pub output: Option<Box<Ty>>,
}

/// The kinds of types.
#[derive(Debug)]
pub enum TyKind {
    Slice(Box<Ty>),
    Ptr(MutTy),
    /// A reference, with its lifetime if written.
    Rptr(Option<String>, MutTy),
    Never,
    Tup(Vec<Ty>),
    Paren(Box<Ty>),
    BareFn(BareFnTy),
    /// A path type, qualified or not, with what it resolves to.
    Path(Option<QSelf>, Path, Def),
    /// A trait object, with its bounds as printed.
    TraitObject(String),
    /// `impl Trait`, with its bounds as printed.
    ImplTrait(String),
    /// An array, with its length expression as printed.
    Array(Box<Ty>, String),
    Typeof,
    Infer,
    Error,
    ImplicitSelf,
    Mac,
}

/// A type.
#[derive(Debug)]
pub struct Ty {
    pub node: TyKind,
}

/// A generic parameter, a lifetime or a type parameter: its name, its
/// definition, and its bounds as printed.
#[derive(Debug)]
pub struct GenericParam {
    pub name: String,
    pub def_id: DefId,
    pub bounds: Vec<String>,
}

/// The generic parameters of an item, lifetimes first. Where clauses are
/// not part of them.
#[derive(Debug)]
pub struct Generics {
    pub lifetimes: Vec<GenericParam>,
    pub ty_params: Vec<GenericParam>,
}

/// Whether a function is a `const fn`.
#[derive(Clone, Copy, Debug, PartialEq, Eq)]
pub enum Constness {
    Const,
    NotConst,
}

/// Whether an impl is negative (`impl !Trait for T`).
#[derive(Clone, Copy, Debug, PartialEq, Eq)]
pub enum ImplPolarity {
    Positive,
    Negative,
}

/// Whether an impl is a `default impl`.
#[derive(Clone, Copy, Debug, PartialEq, Eq)]
pub enum Defaultness {
    Default,
    Final,
}

/// An argument of a function: its pattern as printed and its type.
#[derive(Debug)]
pub struct Arg {
    pub pat: String,
    pub ty: Ty,
}

/// The arguments and return type of a function.
#[derive(Debug)]
pub struct FnDecl {
    pub inputs: Vec<Arg>,
    pub output: Option<Ty>,
}

/// The kinds of items, with what their signatures read of them.
#[derive(Debug)]
pub enum ItemKind {
    /// A static, with its initializer as printed.
    Static(Ty, Mutability, String),
    /// A constant, with its value as printed.
    Const(Ty, String),
    /// A function: its declaration, safety, constness, ABI (`None` for the
    /// Rust ABI, else the ABI as printed) and generics.
    Fn(FnDecl, Unsafety, Constness, Option<String>, Generics),
    Mod,
    /// A type alias.
    Ty(Ty, Generics),
    Enum(Generics),
    Struct(Generics),
    Union(Generics),
    /// A trait, with its bounds as printed.
    Trait(Unsafety, Generics, Vec<String>),
    /// `impl Trait for .. {}`, with the trait's path.
    DefaultImpl(Unsafety, Path),
    /// An impl, with the path of its trait if it has one, and its self type.
    Impl(Unsafety, ImplPolarity, Defaultness, Generics, Option<Path>, Ty),
    ForeignMod,
    GlobalAsm,
    ExternCrate,
    Use,
    Mac,
    MacroDef,
}

/// An item: its name, its definition, what a path at the item resolves to
/// (`None` where nothing is recorded), and its kind.
#[derive(Debug)]
pub struct Item {
    pub ident: String,
    pub def_id: DefId,
    pub path_def: Option<Def>,
    pub node: ItemKind,
}

/// The save-analysis id of a definition.
pub open spec fn id_of(d: DefId) -> Id {
    Id { krate: d.krate, index: d.index }
}

/// The length in bytes of a text.
#[verifier::opaque]
pub open spec fn blen(s: Seq<char>) -> nat {
    encode_utf8(s).len()
}

/// A signature with only a text.
pub open spec fn text_only(text: Seq<char>) -> SigView {
    SigView { text, defs: Seq::empty(), refs: Seq::empty() }
}

/// A signature with its text replaced.
pub open spec fn with_text(s: SigView, text: Seq<char>) -> SigView {
    SigView { text, defs: s.defs, refs: s.refs }
}

/// The text with each line break made a space.
pub open spec fn one_line(s: Seq<char>) -> Seq<char> {
    s.map_values(|c: char| if c == '\n' { ' ' } else { c })
}

/// Texts joined by a separator.
pub open spec fn joined(ls: Seq<Seq<char>>, sep: Seq<char>) -> Seq<char>
    decreases ls.len(),
{
    if ls.len() == 0 {
        Seq::empty()
    } else if ls.len() == 1 {
        ls[0]
    } else {
        joined(ls.drop_last(), sep) + sep + ls.last()
    }
}

/// The texts of some strings.
pub open spec fn texts(v: Seq<String>) -> Seq<Seq<char>> {
    v.map_values(|s: String| s@)
}

/// What a pointer's signature starts with.
pub open spec fn ptr_prefix(m: Mutability) -> Seq<char> {
    match m {
        Mutability::Mutable => "*mut "@,
        Mutability::Immutable => "*const "@,
    }
}

/// What a reference's signature starts with.
pub open spec fn rptr_prefix(lifetime: Option<String>, m: Mutability) -> Seq<char> {
    "&"@ + (match lifetime {
        Some(l) => l@ + " "@,
        None => Seq::empty(),
    }) + (match m {
        Mutability::Mutable => "mut "@,
        Mutability::Immutable => Seq::empty(),
    })
}

/// What a function pointer's signature starts with, up to its arguments.
pub open spec fn bare_fn_head(f: BareFnTy) -> Seq<char> {
    (if f.lifetimes@.len() > 0 {
        "for<"@ + joined(texts(f.lifetimes@), ", "@) + ">"@
    } else {
        Seq::empty()
    }) + (match f.unsafety {
        Unsafety::Unsafe => "unsafe "@,
        Unsafety::Normal => Seq::empty(),
    }) + (match f.abi {
        Some(a) => "extern"@ + a@ + " "@,
        None => Seq::empty(),
    }) + "fn("@
}

/// The signature of a path that resolves to `def` (`None` when the path
/// has no node to resolve), at byte `offset`: its last segment (the last
/// two for an associated constant or a variant), referring to the
/// definition.
pub open spec fn path_sig(path: Path, offset: int, def: Option<Def>) -> Result<SigView, Seq<char>> {
    match def {
        None => Err("Missing id for Path"@),
        Some(d) => {
            let segs = texts(path.segments@);
            let id = id_of(d.def_id);
            if d.kind is AssociatedConst || d.kind is Variant || d.kind is VariantCtor {
                if segs.len() < 2 {
                    Err("Bad path"@)
                } else {
                    let seg1 = segs[segs.len() - 2];
                    let seg2 = segs[segs.len() - 1];
                    let start = offset + blen(seg1) + 2;
                    Ok(
                        SigView {
                            text: seg1 + "::"@ + seg2,
                            defs: Seq::empty(),
                            refs: seq![SigElement { id, start: start as usize, end: (start + blen(seg2)) as usize }],
                        },
                    )
                }
            } else if segs.len() == 0 {
                Err("Bad path"@)
            } else {
                let name = segs.last();
                Ok(
                    SigView {
                        text: name,
                        defs: Seq::empty(),
                        refs: seq![SigElement { id, start: offset as usize, end: (offset + blen(name)) as usize }],
                    },
                )
            }
        },
    }
}

/// The signature of a qualified path type, given that of its self type:
/// `<T>::`, `<T as Trait>::` or `<T as ...>::` before the last segment,
/// with `...::` between when segments are left out; only the last segment
/// is a reference.
pub open spec fn qpath_sig(nested: SigView, position: usize, path: Path, def: Def, offset: int) -> Result<SigView, Seq<char>> {
    let segs = texts(path.segments@);
    let prefix = if position == 0 {
        "<"@ + nested.text + ">::"@
    } else if position == 1 {
        "<"@ + nested.text + " as "@ + segs[0] + ">::"@
    } else {
        "<"@ + nested.text + " as ...>::"@
    };
    if segs.len() == 0 {
        Err("Bad path"@)
    } else {
        let name = segs.last();
        let id = id_of(def.def_id);
        if segs.len() - position == 1 {
            let start = offset + blen(prefix);
            Ok(
                SigView {
                    text: prefix + name,
                    defs: Seq::empty(),
                    refs: seq![SigElement { id, start: start as usize, end: (start + blen(name)) as usize }],
                },
            )
        } else {
            let start = offset + blen(prefix) + 5;
            Ok(
                SigView {
                    text: prefix + "...::"@ + name,
                    defs: Seq::empty(),
                    refs: seq![SigElement { id, start: start as usize, end: (start + blen(name)) as usize }],
                },
            )
        }
    }
}

/// The signature of a type at byte `offset` of the enclosing signature, or
/// why there is none.
pub open spec fn ty_sig(ty: Ty, offset: int) -> Result<SigView, Seq<char>>
    decreases ty, 0nat,
{
    match ty.node {
        TyKind::Slice(inner) => match ty_sig(*inner, offset + 1) {
            Ok(n) => Ok(with_text(n, "["@ + n.text + "]"@)),
            Err(e) => Err(e),
        },
        TyKind::Ptr(mt) => match ty_sig(*mt.ty, offset + blen(ptr_prefix(mt.mutbl))) {
            Ok(n) => Ok(with_text(n, ptr_prefix(mt.mutbl) + n.text)),
            Err(e) => Err(e),
        },
        TyKind::Rptr(lifetime, mt) => match ty_sig(*mt.ty, offset + blen(rptr_prefix(lifetime, mt.mutbl))) {
            Ok(n) => Ok(with_text(n, rptr_prefix(lifetime, mt.mutbl) + n.text)),
            Err(e) => Err(e),
        },
        TyKind::Never => Ok(text_only("!"@)),
        TyKind::Tup(ts) => match tys_sig(ts@, offset, text_only("("@)) {
            Ok(s) => Ok(with_text(s, s.text + ")"@)),
            Err(e) => Err(e),
        },
        TyKind::Paren(inner) => match ty_sig(*inner, offset + 1) {
            Ok(n) => Ok(with_text(n, "("@ + n.text + ")"@)),
            Err(e) => Err(e),
        },
        TyKind::BareFn(f) => match tys_sig(f.inputs@, offset, text_only(bare_fn_head(f))) {
            Err(e) => Err(e),
            Ok(s) => {
                let closed = s.text + ")"@;
                match f.output {
                    None => Ok(with_text(s, closed)),
                    Some(t) => match ty_sig(*t, offset + blen(closed + " -> "@)) {
                        Err(e) => Err(e),
                        Ok(n) => Ok(
                            SigView {
                                text: closed + " -> "@ + n.text + ","@,
                                defs: s.defs + n.defs,
                                refs: s.refs + n.refs,
                            },
                        ),
                    },
                }
            },
        },
        TyKind::Path(None, path, def) => path_sig(path, offset, Some(def)),
        TyKind::Path(Some(q), path, def) => match ty_sig(*q.ty, offset + 1) {
            Err(e) => Err(e),
            Ok(nested) => qpath_sig(nested, q.position, path, def, offset),
        },
        TyKind::TraitObject(bounds) => Ok(text_only(bounds@)),
        TyKind::ImplTrait(bounds) => Ok(text_only("impl "@ + bounds@)),
        TyKind::Array(inner, len) => match ty_sig(*inner, offset + 1) {
            Ok(n) => Ok(with_text(n, "["@ + n.text + "; "@ + one_line(len@) + "]"@)),
            Err(e) => Err(e),
        },
        _ => Err("Ty"@),
    }
}

/// `acc` followed by the signatures of the types, each followed by a
/// comma; their elements join those of `acc`.
pub open spec fn tys_sig(ts: Seq<Ty>, offset: int, acc: SigView) -> Result<SigView, Seq<char>>
    decreases ts, 1nat,
{
    if ts.len() == 0 {
        Ok(acc)
    } else {
        match ty_sig(ts[0], offset + blen(acc.text)) {
            Err(e) => Err(e),
            Ok(n) => tys_sig(
                ts.subrange(1, ts.len() as int),
                offset,
                SigView { text: acc.text + n.text + ","@, defs: acc.defs + n.defs, refs: acc.refs + n.refs },
            ),
        }
    }
}


/// The total length in bytes of some texts.
pub open spec fn strs(ls: Seq<Seq<char>>) -> int
    decreases ls.len(),
{
    if ls.len() == 0 {
        0
    } else {
        strs(ls.drop_last()) + blen(ls.last())
    }
}

/// The signature of an item's name and generics after `text`; the name
/// is a definition said to start five bytes after `offset`, whatever
/// `text` holds.
pub open spec fn name_generics_sig(item: Item, text: Seq<char>, g: Generics, offset: int) -> SigView {
    let t = text + item.ident@;
    let gs = generics_sig(g, offset + blen(t));
    SigView {
        text: t + gs.text,
        defs: gs.defs.push(
            SigElement { id: id_of(item.def_id), start: (offset + 5) as usize, end: (offset + 5 + blen(item.ident@)) as usize },
        ),
        refs: gs.refs,
    }
}

/// `acc` followed by the arguments, each as its pattern, `: `, the
/// signature of its type and a comma.
pub open spec fn args_sig(args: Seq<Arg>, offset: int, acc: SigView) -> Result<SigView, Seq<char>>
    decreases args.len(),
{
    if args.len() == 0 {
        Ok(acc)
    } else {
        let head = acc.text + args[0].pat@ + ": "@;
        match ty_sig(args[0].ty, offset + blen(head)) {
            Err(e) => Err(e),
            Ok(n) => args_sig(
                args.drop_first(),
                offset,
                SigView { text: head + n.text + ","@, defs: acc.defs + n.defs, refs: acc.refs + n.refs },
            ),
        }
    }
}

/// The definition of an item's name at a byte offset.
pub open spec fn name_def(item: Item, start: int) -> SigElement {
    SigElement { id: id_of(item.def_id), start: start as usize, end: (start + blen(item.ident@)) as usize }
}

/// The signature of a static or constant item after its keywords `kw`.
pub open spec fn value_item_sig(item: Item, kw: Seq<char>, ty: Ty, expr: Seq<char>, offset: int) -> Result<SigView, Seq<char>> {
    let head = kw + item.ident@ + ": "@;
    match ty_sig(ty, offset + blen(head)) {
        Err(e) => Err(e),
        Ok(t) => Ok(
            SigView {
                text: head + t.text + " = "@ + one_line(expr) + ";"@,
                defs: t.defs.push(name_def(item, offset + blen(kw))),
                refs: t.refs,
            },
        ),
    }
}

/// What a function's signature starts with, up to its name.
pub open spec fn fn_head(unsafety: Unsafety, constness: Constness, abi: Option<String>) -> Seq<char> {
    (match constness {
        Constness::Const => "const "@,
        Constness::NotConst => Seq::empty(),
    }) + (match unsafety {
        Unsafety::Unsafe => "unsafe "@,
        Unsafety::Normal => Seq::empty(),
    }) + (match abi {
        Some(a) => "extern"@ + a@ + " "@,
        None => Seq::empty(),
    }) + "fn "@
}

/// `unsafe ` for an unsafe item, else nothing.
pub open spec fn unsafe_prefix(u: Unsafety) -> Seq<char> {
    match u {
        Unsafety::Unsafe => "unsafe "@,
        Unsafety::Normal => Seq::empty(),
    }
}

/// The signature of a function item.
pub open spec fn fn_sig(item: Item, decl: FnDecl, head: Seq<char>, g: Generics, offset: int) -> Result<SigView, Seq<char>> {
    let ng = name_generics_sig(item, head, g, offset);
    match args_sig(decl.inputs@, offset, with_text(ng, ng.text + "("@)) {
        Err(e) => Err(e),
        Ok(s) => {
            let closed = s.text + ")"@;
            match decl.output {
                None => Ok(with_text(s, closed)),
                Some(t) => match ty_sig(t, offset + blen(closed + " -> "@)) {
                    Err(e) => Err(e),
                    Ok(n) => Ok(
                        SigView { text: closed + " -> "@ + n.text + ","@, defs: s.defs + n.defs, refs: s.refs + n.refs },
                    ),
                },
            }
        },
    }
}

/// The signature of an impl after its head `text`.
pub open spec fn impl_sig(item: Item, head: Seq<char>, polarity: ImplPolarity, g: Generics, tr: Option<Path>, ty: Ty, offset: int) -> Result<SigView, Seq<char>> {
    let gs = generics_sig(g, offset + blen(head));
    let t1 = head + gs.text + " "@;
    let trait_part: Result<(Seq<char>, SigView), Seq<char>> = match tr {
        None => Ok((t1, text_only(Seq::empty()))),
        Some(p) => {
            let t2 = t1 + (if polarity is Negative { "!"@ } else { Seq::empty() });
            match path_sig(p, offset + blen(t2), item.path_def) {
                Err(e) => Err(e),
                Ok(ts) => Ok((t2 + ts.text + " for "@, ts)),
            }
        },
    };
    match trait_part {
        Err(e) => Err(e),
        Ok((t3, ts)) => match ty_sig(ty, offset + blen(t3)) {
            Err(e) => Err(e),
            Ok(tys) => Ok(
                SigView {
                    text: t3 + tys.text + " {}"@,
                    defs: gs.defs + ts.defs + tys.defs,
                    refs: gs.refs + ts.refs + tys.refs,
                },
            ),
        },
    }
}

/// The signature of an item at byte `offset`, or why there is none.
pub open spec fn item_sig(item: Item, offset: int) -> Result<SigView, Seq<char>> {
    match item.node {
        ItemKind::Static(ty, m, expr) => value_item_sig(
            item,
            "static "@ + (if m is Mutable { "mut "@ } else { Seq::empty() }),
            ty,
            expr@,
            offset,
        ),
        ItemKind::Const(ty, expr) => value_item_sig(item, "const "@, ty, expr@, offset),
        ItemKind::Fn(decl, u, c, abi, g) => fn_sig(item, decl, fn_head(u, c, abi), g, offset),
        ItemKind::Mod => Ok(
            SigView { text: "mod "@ + item.ident@ + ";"@, defs: seq![name_def(item, offset + 4)], refs: Seq::empty() },
        ),
        ItemKind::Ty(ty, g) => {
            let ng = name_generics_sig(item, "type "@, g, offset);
            let head = ng.text + " = "@;
            match ty_sig(ty, offset + blen(head)) {
                Err(e) => Err(e),
                Ok(t) => Ok(SigView { text: head + t.text + ";"@, defs: ng.defs + t.defs, refs: ng.refs + t.refs }),
            }
        },
        ItemKind::Enum(g) => {
            let ng = name_generics_sig(item, "enum "@, g, offset);
            Ok(with_text(ng, ng.text + " {}"@))
        },
        ItemKind::Struct(g) => {
            let ng = name_generics_sig(item, "struct "@, g, offset);
            Ok(with_text(ng, ng.text + " {}"@))
        },
        ItemKind::Union(g) => {
            let ng = name_generics_sig(item, "union "@, g, offset);
            Ok(with_text(ng, ng.text + " {}"@))
        },
        ItemKind::Trait(u, g, bounds) => {
            let ng = name_generics_sig(item, unsafe_prefix(u) + "trait "@, g, offset);
            let b = if bounds@.len() > 0 { ": "@ + joined(texts(bounds@), " + "@) } else { Seq::empty() };
            Ok(with_text(ng, ng.text + b + " {}"@))
        },
        ItemKind::DefaultImpl(u, p) => {
            let head = unsafe_prefix(u) + "impl "@;
            match path_sig(p, offset + blen(head), item.path_def) {
                Err(e) => Err(e),
                Ok(ts) => Ok(with_text(ts, head + ts.text + " for .. {}"@)),
            }
        },
        ItemKind::Impl(u, pol, d, g, tr, ty) => impl_sig(
            item,
            (if d is Default { "default "@ } else { Seq::empty() }) + unsafe_prefix(u) + "impl"@,
            pol,
            g,
            tr,
            ty,
            offset,
        ),
        ItemKind::ForeignMod => Err("extern mod"@),
        ItemKind::GlobalAsm => Err("glboal asm"@),
        ItemKind::ExternCrate => Err("extern crate"@),
        ItemKind::Use => Err("import"@),
        ItemKind::Mac => Err("Macro"@),
        ItemKind::MacroDef => Err("Macro"@),
    }
}

/// A bound on the length of a generics signature.
pub open spec fn generics_size(g: Generics) -> int {
    params_size(g.lifetimes@ + g.ty_params@) + 2
}

/// A bound on the length of arguments' signatures.
pub open spec fn args_size(args: Seq<Arg>) -> int
    decreases args.len(),
{
    if args.len() == 0 {
        0
    } else {
        blen(args[0].pat@) + size(args[0].ty) + 3 + args_size(args.drop_first())
    }
}

/// Every argument's type is sane.
pub open spec fn args_sane(args: Seq<Arg>) -> bool {
    forall|i: int| 0 <= i < args.len() ==> #[trigger] sane(args[i].ty)
}

/// Every type in the item is sane.
pub open spec fn item_sane(item: Item) -> bool {
    match item.node {
        ItemKind::Static(ty, _, _) => sane(ty),
        ItemKind::Const(ty, _) => sane(ty),
        ItemKind::Fn(decl, _, _, _, _) => args_sane(decl.inputs@) && match decl.output {
            Some(t) => sane(t),
            None => true,
        },
        ItemKind::Ty(ty, _) => sane(ty),
        ItemKind::Impl(_, _, _, _, _, ty) => sane(ty),
        _ => true,
    }
}

/// A bound on the length of an item's signature, with room to spare.
pub open spec fn item_size(item: Item) -> int {
    64 + blen(item.ident@) + match item.node {
        ItemKind::Static(ty, _, expr) => size(ty) + blen(expr@),
        ItemKind::Const(ty, expr) => size(ty) + blen(expr@),
        ItemKind::Fn(decl, _, _, abi, g) => (match abi {
            Some(a) => blen(a@) as int,
            None => 0,
        }) + generics_size(g) + args_size(decl.inputs@) + (match decl.output {
            Some(t) => size(t),
            None => 0,
        }),
        ItemKind::Ty(ty, g) => size(ty) + generics_size(g),
        ItemKind::Enum(g) => generics_size(g),
        ItemKind::Struct(g) => generics_size(g),
        ItemKind::Union(g) => generics_size(g),
        ItemKind::Trait(_, g, bounds) => generics_size(g) + strs(texts(bounds@)) + 3 * bounds@.len(),
        ItemKind::DefaultImpl(_, p) => 2 * strs(texts(p.segments@)),
        ItemKind::Impl(_, _, _, g, tr, ty) => generics_size(g) + (match tr {
            Some(p) => 2 * strs(texts(p.segments@)),
            None => 0,
        }) + size(ty),
        _ => 0,
    }
}

/// A bound on the length of a type's signature, with room to spare: 64
/// bytes for each node, the printed texts it holds, twice for path
/// segments and with two bytes per lifetime for separators.
pub open spec fn size(ty: Ty) -> int
    decreases ty, 0nat,
{
    64 + match ty.node {
        TyKind::Slice(b) => size(*b),
        TyKind::Paren(b) => size(*b),
        TyKind::Ptr(mt) => size(*mt.ty),
        TyKind::Rptr(lifetime, mt) => (match lifetime {
            Some(l) => blen(l@) as int,
            None => 0,
        }) + size(*mt.ty),
        TyKind::Tup(ts) => sizes(ts@),
        TyKind::BareFn(f) => strs(texts(f.lifetimes@)) + 2 * f.lifetimes@.len() + (match f.abi {
            Some(a) => blen(a@) as int,
            None => 0,
        }) + sizes(f.inputs@) + (match f.output {
            Some(t) => size(*t),
            None => 0,
        }),
        TyKind::Path(q, path, _) => 2 * strs(texts(path.segments@)) + (match q {
            Some(q) => size(*q.ty),
            None => 0,
        }),
        TyKind::TraitObject(b) => blen(b@) as int,
        TyKind::ImplTrait(b) => blen(b@) as int,
        TyKind::Array(b, e) => size(*b) + blen(e@),
        _ => 0,
    }
}

/// The sum of the bounds of some types.
pub open spec fn sizes(ts: Seq<Ty>) -> int
    decreases ts, 1nat,
{
    if ts.len() == 0 {
        0
    } else {
        sizes(ts.subrange(0, ts.len() - 1)) + size(ts[ts.len() - 1])
    }
}

/// The text of a generic parameter: its name, then its bounds joined by
/// ` + ` after `: ` where it has any.
pub open spec fn param_text(p: GenericParam) -> Seq<char> {
    p.name@ + (if p.bounds@.len() > 0 {
        ": "@ + joined(texts(p.bounds@), " + "@)
    } else {
        Seq::empty()
    })
}

/// `acc` followed by the texts of the parameters, each followed by a
/// comma; each name is a definition at its byte range.
pub open spec fn params_sig(ps: Seq<GenericParam>, offset: int, acc: SigView) -> SigView
    decreases ps.len(),
{
    if ps.len() == 0 {
        acc
    } else {
        let p = ps[0];
        let start = offset + blen(acc.text);
        params_sig(
            ps.drop_first(),
            offset,
            SigView {
                text: acc.text + param_text(p) + ","@,
                defs: acc.defs.push(
                    SigElement { id: id_of(p.def_id), start: start as usize, end: (start + blen(p.name@)) as usize },
                ),
                refs: acc.refs,
            },
        )
    }
}

/// The signature of generic parameters at byte `offset`: empty where there
/// are none, else the parameters between `<` and `>`.
pub open spec fn generics_sig(g: Generics, offset: int) -> SigView {
    if g.lifetimes@.len() == 0 && g.ty_params@.len() == 0 {
        text_only(Seq::empty())
    } else {
        let s = params_sig(g.lifetimes@ + g.ty_params@, offset, text_only("<"@));
        with_text(s, s.text + ">"@)
    }
}

/// A bound on the length of a parameter's text and its comma.
pub open spec fn param_size(p: GenericParam) -> int {
    blen(p.name@) + strs(texts(p.bounds@)) + 3 * p.bounds@.len() + 3
}

/// The sum of the bounds of some parameters.
pub open spec fn params_size(ps: Seq<GenericParam>) -> int
    decreases ps.len(),
{
    if ps.len() == 0 {
        0
    } else {
        param_size(ps[0]) + params_size(ps.drop_first())
    }
}

/// Every qualified path in the type has at least as many segments as
/// its trait part.
pub open spec fn sane(ty: Ty) -> bool
    decreases ty, 0nat,
{
    match ty.node {
        TyKind::Slice(b) => sane(*b),
        TyKind::Paren(b) => sane(*b),
        TyKind::Ptr(mt) => sane(*mt.ty),
        TyKind::Rptr(_, mt) => sane(*mt.ty),
        TyKind::Tup(ts) => all_sane(ts@),
        TyKind::BareFn(f) => all_sane(f.inputs@) && match f.output {
            Some(t) => sane(*t),
            None => true,
        },
        TyKind::Path(q, path, _) => match q {
            Some(q) => q.position <= path.segments@.len() && sane(*q.ty),
            None => true,
        },
        TyKind::Array(b, _) => sane(*b),
        _ => true,
    }
}

/// Every type of the list is sane.
pub open spec fn all_sane(ts: Seq<Ty>) -> bool
    decreases ts, 1nat,
{
    if ts.len() == 0 {
        true
    } else {
        all_sane(ts.subrange(0, ts.len() - 1)) && sane(ts[ts.len() - 1])
    }
}

/// Appends the characters of `s`.
fn push_text(out: &mut String, s: &str)
    ensures
        final(out)@ == old(out)@ + s@,
{
    let cs = crate::strings::chars_of(s);
    let mut i: usize = 0;
    while i < cs.len()
        invariant
            i <= cs@.len(),
            cs@ == s@,
            out@ == old(out)@ + cs@.subrange(0, i as int),
        decreases cs@.len() - i,
    {
        crate::strings::push_char(out, cs[i]);
        i = i + 1;
        assert(out@ =~= old(out)@ + cs@.subrange(0, i as int));
    }
    assert(cs@.subrange(0, cs@.len() as int) =~= s@);
}

impl Path {
    /// The signature of this path at byte `offset`, where it resolves to
    /// `def` (`None` when the path has no node to resolve).
    pub fn make(&self, offset: usize, def: Option<Def>) -> (r: Result<Signature, &'static str>)
        requires
            offset + 2 * strs(texts(self.segments@)) + 2 <= usize::MAX,
        ensures
            match r {
                Ok(s) => path_sig(*self, offset as int, def) == Ok::<SigView, Seq<char>>(s@)
                    && blen(s@.text) <= 2 * strs(texts(self.segments@)) + 2,
                Err(e) => path_sig(*self, offset as int, def) == Err::<SigView, Seq<char>>(e@),
            },
    {
        let d = match def {
            None => return Err("Missing id for Path"),
            Some(d) => d,
        };
        let id = Id { krate: d.def_id.krate, index: d.def_id.index };
        let len = self.segments.len();
        let ghost segs = texts(self.segments@);
        proof {
            lemma_strs_nonneg(segs);
            lemma_pieces_path();
        }
        match d.kind {
            DefKind::AssociatedConst | DefKind::Variant | DefKind::VariantCtor => {
                if len < 2 {
                    return Err("Bad path");
                }
                let seg1 = self.segments[len - 2].as_str();
                let seg2 = self.segments[len - 1].as_str();
                proof {
                    assert(segs[len - 2] == seg1@);
                    assert(segs[len - 1] == seg2@);
                    lemma_strs_le(segs, len - 2);
                    lemma_strs_le(segs, len - 1);
                }
                let start = offset + str_len(seg1) + 2;
                let end = start + str_len(seg2);
                let mut text = String::new();
                push_text(&mut text, seg1);
                push_text(&mut text, "::");
                push_text(&mut text, seg2);
                proof {
                    assert(text@ =~= seg1@ + "::"@ + seg2@);
                    lemma_blen_concat(seg1@, "::"@);
                    lemma_blen_concat(seg1@ + "::"@, seg2@);
                }
                let mut refs: Vec<SigElement> = Vec::new();
                refs.push(SigElement { id, start, end });
                let s = Signature { text, defs: Vec::new(), refs };
                assert(path_sig(*self, offset as int, def) == Ok::<SigView, Seq<char>>(s@));
                Ok(s)
            },
            _ => {
                if len == 0 {
                    return Err("Bad path");
                }
                let name = self.segments[len - 1].as_str();
                proof {
                    assert(segs[len - 1] == name@);
                    assert(segs.last() == name@);
                    lemma_strs_le(segs, len - 1);
                }
                let end = offset + str_len(name);
                let mut text = String::new();
                push_text(&mut text, name);
                assert(text@ =~= name@);
                let mut refs: Vec<SigElement> = Vec::new();
                refs.push(SigElement { id, start: offset, end });
                let s = Signature { text, defs: Vec::new(), refs };
                assert(path_sig(*self, offset as int, def) == Ok::<SigView, Seq<char>>(s@));
                Ok(s)
            },
        }
    }
}

/// The text of a generic parameter.
fn param_text_of(p: &GenericParam) -> (r: String)
    ensures
        r@ == param_text(*p),
        blen(r@) + 1 <= param_size(*p),
{
    proof {
        lemma_pieces_generics();
        lemma_strs_nonneg(texts(p.bounds@));
    }
    let mut t = String::new();
    push_text(&mut t, p.name.as_str());
    if p.bounds.len() > 0 {
        push_text(&mut t, ": ");
        let b = join_texts(&p.bounds, " + ");
        push_text(&mut t, b.as_str());
        proof {
            lemma_joined_len(texts(p.bounds@), " + "@);
            lemma_blen_concat(p.name@, ": "@);
            lemma_blen_concat(p.name@ + ": "@, b@);
            assert(t@ =~= p.name@ + (": "@ + b@));
        }
    } else {
        assert(t@ =~= p.name@ + Seq::<char>::empty());
    }
    t
}

/// `init` followed by the texts of the parameters, each followed by a
/// comma, with a definition for each name.
fn push_params(ps: &Vec<GenericParam>, offset: usize, init: Signature) -> (r: Signature)
    requires
        offset + blen(init@.text) + params_size(ps@) <= usize::MAX,
    ensures
        r@ == params_sig(ps@, offset as int, init@),
        blen(r@.text) <= blen(init@.text) + params_size(ps@),
{
    let mut acc = init;
    let ghost acc0 = acc@;
    let ghost len = ps@.len() as int;
    proof {
        assert(ps@.subrange(0, len) =~= ps@);
    }
    let mut i: usize = 0;
    while i < ps.len()
        invariant
            0 <= i <= ps@.len(),
            len == ps@.len(),
            acc0 == init@,
            offset + blen(acc0.text) + params_size(ps@) <= usize::MAX,
            params_sig(ps@, offset as int, acc0) == params_sig(ps@.subrange(i as int, len), offset as int, acc@),
            blen(acc@.text) + params_size(ps@.subrange(i as int, len)) <= blen(acc0.text) + params_size(ps@),
        decreases len - i,
    {
        proof {
            lemma_params_step(ps@, i as int, offset as int, acc@);
            lemma_params_size_nonneg(ps@.subrange(i + 1, len));
            lemma_strs_nonneg(texts(ps@[i as int].bounds@));
            lemma_pieces_brackets();
        }
        let p = &ps[i];
        let start = offset + byte_len(&acc.text);
        let end = start + byte_len(&p.name);
        let t = param_text_of(p);
        let ghost before = acc@;
        push_text(&mut acc.text, t.as_str());
        push_text(&mut acc.text, ",");
        acc.defs.push(SigElement { id: Id { krate: p.def_id.krate, index: p.def_id.index }, start, end });
        proof {
            lemma_blen_concat(before.text, t@);
            lemma_blen_concat(before.text + t@, ","@);
            assert(acc@ =~= SigView {
                text: before.text + param_text(*p) + ","@,
                defs: before.defs.push(
                    SigElement { id: id_of(p.def_id), start: start, end: end },
                ),
                refs: before.refs,
            });
        }
        i = i + 1;
    }
    acc
}

impl Generics {
    /// The signature of these generic parameters at byte `offset` of the
    /// enclosing signature.
    pub fn make(&self, offset: usize) -> (r: Result<Signature, &'static str>)
        requires
            offset + params_size(self.lifetimes@ + self.ty_params@) + 2 <= usize::MAX,
        ensures
            match r {
                Ok(s) => s@ == generics_sig(*self, offset as int)
                    && blen(s@.text) <= params_size(self.lifetimes@ + self.ty_params@) + 2,
                Err(_) => false,
            },
    {
        proof {
            lemma_params_size_nonneg(self.lifetimes@ + self.ty_params@);
            lemma_pieces_brackets();
        }
        if self.lifetimes.len() == 0 && self.ty_params.len() == 0 {
            return Ok(text_sig(String::new()));
        }
        proof {
            lemma_pieces_brackets();
            lemma_pieces_generics();
            lemma_params_concat(self.lifetimes@, self.ty_params@, offset as int, text_only("<"@));
            lemma_params_size_nonneg(self.lifetimes@);
            lemma_params_size_nonneg(self.ty_params@);
        }
        let mut head = String::new();
        push_text(&mut head, "<");
        let s = push_params(&self.lifetimes, offset, text_sig(head));
        let s = push_params(&self.ty_params, offset, s);
        Ok(enclose("", s, ">"))
    }
}

/// The signature of an item's name and generics after `text`.
fn name_and_generics(item: &Item, text: String, g: &Generics, offset: usize) -> (r: Signature)
    requires
        offset + blen(text@) + blen(item.ident@) + generics_size(*g) + 5 <= usize::MAX,
    ensures
        r@ == name_generics_sig(*item, text@, *g, offset as int),
        blen(r@.text) <= blen(text@) + blen(item.ident@) + generics_size(*g),
{
    proof {
        lemma_params_size_nonneg(g.lifetimes@ + g.ty_params@);
    }
    let ghost t0 = text@;
    let start = offset + 5;
    let end = start + byte_len(&item.ident);
    let mut text = text;
    push_text(&mut text, item.ident.as_str());
    proof {
        lemma_blen_concat(t0, item.ident@);
    }
    let ghost t1 = text@;
    match g.make(offset + byte_len(&text)) {
        Ok(gs) => {
            push_text(&mut text, gs.text.as_str());
            proof {
                lemma_blen_concat(t1, gs@.text);
            }
            let mut defs = gs.defs;
            defs.push(SigElement { id: Id { krate: item.def_id.krate, index: item.def_id.index }, start, end });
            let r = Signature { text, defs, refs: gs.refs };
            assert(r@ =~= name_generics_sig(*item, t0, *g, offset as int));
            r
        },
        Err(_) => {
            proof {
                assert(false);
            }
            text_sig(text)
        },
    }
}

/// `init` followed by the arguments, each as its pattern, `: `, the
/// signature of its type and a comma.
#[verifier::rlimit(100)]
#[verifier::spinoff_prover]
fn push_args(args: &Vec<Arg>, offset: usize, init: Signature) -> (r: Result<Signature, &'static str>)
    requires
        args_sane(args@),
        offset + blen(init@.text) + args_size(args@) <= usize::MAX,
    ensures
        match r {
            Ok(s) => args_sig(args@, offset as int, init@) == Ok::<SigView, Seq<char>>(s@)
                && blen(s@.text) <= blen(init@.text) + args_size(args@),
            Err(e) => args_sig(args@, offset as int, init@) == Err::<SigView, Seq<char>>(e@),
        },
{
    let mut acc = init;
    let ghost acc0 = acc@;
    let ghost len = args@.len() as int;
    proof {
        assert(args@.subrange(0, len) =~= args@);
    }
    let mut i: usize = 0;
    while i < args.len()
        invariant
            0 <= i <= args@.len(),
            len == args@.len(),
            acc0 == init@,
            args_sane(args@),
            offset + blen(acc0.text) + args_size(args@) <= usize::MAX,
            args_sig(args@, offset as int, acc0) == args_sig(args@.subrange(i as int, len), offset as int, acc@),
            blen(acc@.text) + args_size(args@.subrange(i as int, len)) <= blen(acc0.text) + args_size(args@),
        decreases len - i,
    {
        let a = &args[i];
        proof {
            lemma_args_step(args@, i as int, offset as int, acc@);
            lemma_args_size_nonneg(args@.subrange(i + 1, len));
            lemma_size_min(a.ty);
            lemma_pieces_args();
            assert(sane(args@[i as int].ty));
        }
        let ghost before = acc@;
        push_text(&mut acc.text, a.pat.as_str());
        push_text(&mut acc.text, ": ");
        proof {
            lemma_blen_concat(before.text, a.pat@);
            lemma_blen_concat(before.text + a.pat@, ": "@);
            assert(acc@.text =~= before.text + a.pat@ + ": "@);
        }
        let ghost head = acc@.text;
        match a.ty.make(offset + byte_len(&acc.text)) {
            Err(e) => {
                return Err(e);
            },
            Ok(n) => {
                push_text(&mut acc.text, n.text.as_str());
                push_text(&mut acc.text, ",");
                let mut nd = n.defs;
                let mut nr = n.refs;
                acc.defs.append(&mut nd);
                acc.refs.append(&mut nr);
                proof {
                    lemma_blen_concat(head, n@.text);
                    lemma_blen_concat(head + n@.text, ","@);
                    assert(acc@ =~= SigView {
                        text: head + n@.text + ","@,
                        defs: before.defs + n@.defs,
                        refs: before.refs + n@.refs,
                    });
                }
            },
        }
        i = i + 1;
    }
    proof {
        assert(args@.subrange(len, len).len() == 0);
    }
    Ok(acc)
}

impl Item {
    /// The signature of this item at byte `offset`, or why there is none.
    pub fn make(&self, offset: usize) -> (r: Result<Signature, &'static str>)
        requires
            item_sane(*self),
            offset + item_size(*self) <= usize::MAX,
        ensures
            match r {
                Ok(s) => item_sig(*self, offset as int) == Ok::<SigView, Seq<char>>(s@),
                Err(e) => item_sig(*self, offset as int) == Err::<SigView, Seq<char>>(e@),
            },
    {
        proof {
            lemma_pieces_value();
        }
        match &self.node {
            ItemKind::Static(ty, m, expr) => {
                let kw = match m {
                    Mutability::Mutable => "static mut ",
                    Mutability::Immutable => "static ",
                };
                assert(kw@ == "static "@ + (if *m is Mutable { "mut "@ } else { Seq::<char>::empty() }));
                self.make_value(kw, ty, expr, offset)
            },
            ItemKind::Const(ty, expr) => self.make_value("const ", ty, expr, offset),
            ItemKind::Fn(..) => self.make_fn(offset),
            ItemKind::Mod => {
                let start = offset + 4;
                let end = start + byte_len(&self.ident);
                let mut text = String::new();
                push_text(&mut text, "mod ");
                push_text(&mut text, self.ident.as_str());
                push_text(&mut text, ";");
                let mut defs: Vec<SigElement> = Vec::new();
                defs.push(SigElement { id: Id { krate: self.def_id.krate, index: self.def_id.index }, start, end });
                let r = Signature { text, defs, refs: Vec::new() };
                assert(r@ =~= SigView { text: "mod "@ + self.ident@ + ";"@, defs: seq![name_def(*self, offset + 4)], refs: Seq::empty() });
                Ok(r)
            },
            _ => self.make_decl(offset),
        }
    }

    /// The signature of a static or constant item after its keywords `kw`.
    fn make_value(&self, kw: &str, ty: &Ty, expr: &String, offset: usize) -> (r: Result<Signature, &'static str>)
        requires
            sane(*ty),
            blen(kw@) <= 11,
            offset + blen(kw@) + blen(self.ident@) + size(*ty) + blen(expr@) + 16 <= usize::MAX,
        ensures
            match r {
                Ok(s) => value_item_sig(*self, kw@, *ty, expr@, offset as int) == Ok::<SigView, Seq<char>>(s@),
                Err(e) => value_item_sig(*self, kw@, *ty, expr@, offset as int) == Err::<SigView, Seq<char>>(e@),
            },
    {
        proof {
            lemma_pieces_value();
            lemma_size_min(*ty);
        }
        let mut text = String::new();
        push_text(&mut text, kw);
        assert(text@ =~= kw@);
        let start = offset + byte_len(&text);
        let end = start + byte_len(&self.ident);
        push_text(&mut text, self.ident.as_str());
        push_text(&mut text, ": ");
        let ghost head = text@;
        proof {
            assert(head =~= kw@ + self.ident@ + ": "@);
            lemma_blen_concat(kw@, self.ident@);
            lemma_blen_concat(kw@ + self.ident@, ": "@);
        }
        match ty.make(offset + byte_len(&text)) {
            Err(e) => Err(e),
            Ok(t) => {
                push_text(&mut text, t.text.as_str());
                push_text(&mut text, " = ");
                push_one_line(&mut text, expr.as_str());
                push_text(&mut text, ";");
                let mut defs = t.defs;
                defs.push(SigElement { id: Id { krate: self.def_id.krate, index: self.def_id.index }, start, end });
                let r = Signature { text, defs, refs: t.refs };
                assert(r@ =~= SigView {
                    text: head + t@.text + " = "@ + one_line(expr@) + ";"@,
                    defs: t@.defs.push(name_def(*self, offset + blen(kw@))),
                    refs: t@.refs,
                });
                Ok(r)
            },
        }
    }

    /// The signature of a function item.
    #[verifier::rlimit(100)]
    #[verifier::spinoff_prover]
    fn make_fn(&self, offset: usize) -> (r: Result<Signature, &'static str>)
        requires
            self.node is Fn,
            item_sane(*self),
            offset + item_size(*self) <= usize::MAX,
        ensures
            match r {
                Ok(s) => item_sig(*self, offset as int) == Ok::<SigView, Seq<char>>(s@),
                Err(e) => item_sig(*self, offset as int) == Err::<SigView, Seq<char>>(e@),
            },
    {
        proof {
            lemma_pieces_fn_item();
        }
        match &self.node {
            ItemKind::Fn(decl, unsafety, constness, abi, g) => {
                let ghost abi_len = match abi {
                    Some(a) => blen(a@),
                    None => 0,
                };
                proof {
                    lemma_params_size_nonneg(g.lifetimes@ + g.ty_params@);
                    lemma_args_size_nonneg(decl.inputs@);
                    match &decl.output {
                        Some(t) => lemma_size_min(*t),
                        None => {},
                    }
                }
                let ghost pc = match constness {
                    Constness::Const => "const "@,
                    Constness::NotConst => Seq::<char>::empty(),
                };
                let mut head = String::new();
                match constness {
                    Constness::Const => push_text(&mut head, "const "),
                    Constness::NotConst => {},
                }
                assert(head@ =~= pc);
                let ghost h1 = head@;
                match unsafety {
                    Unsafety::Unsafe => push_text(&mut head, "unsafe "),
                    Unsafety::Normal => {},
                }
                let ghost h2 = head@;
                proof {
                    assert(h2 =~= h1 + unsafe_prefix(*unsafety));
                    lemma_blen_concat(h1, unsafe_prefix(*unsafety));
                }
                match abi {
                    Some(a) => {
                        push_text(&mut head, "extern");
                        push_text(&mut head, a.as_str());
                        push_text(&mut head, " ");
                        proof {
                            lemma_blen_concat(h2, "extern"@);
                            lemma_blen_concat(h2 + "extern"@, a@);
                            lemma_blen_concat(h2 + "extern"@ + a@, " "@);
                            assert(head@ =~= h2 + "extern"@ + a@ + " "@);
                        }
                    },
                    None => {},
                }
                let ghost h3 = head@;
                push_text(&mut head, "fn ");
                proof {
                    lemma_blen_concat(h3, "fn "@);
                    assert(head@ =~= fn_head(*unsafety, *constness, *abi));
                    assert(blen(head@) <= 23 + abi_len);
                }
                let ghost hv = head@;
                let ng = name_and_generics(self, head, g, offset);
                let ghost ngv = ng@;
                let mut ng = ng;
                push_text(&mut ng.text, "(");
                proof {
                    lemma_blen_concat(ngv.text, "("@);
                    assert(ng@ =~= with_text(ngv, ngv.text + "("@));
                }
                match push_args(&decl.inputs, offset, ng) {
                    Err(e) => Err(e),
                    Ok(s) => {
                        let ghost sv = s@;
                        let mut s = s;
                        push_text(&mut s.text, ")");
                        proof {
                            lemma_blen_concat(sv.text, ")"@);
                        }
                        match &decl.output {
                            None => {
                                assert(s@ =~= with_text(sv, sv.text + ")"@));
                                Ok(s)
                            },
                            Some(t) => {
                                let ghost closed = s@.text;
                                proof {
                                    lemma_blen_concat(closed, " -> "@);
                                }
                                let cur = byte_len(&s.text);
                                match t.make(offset + cur + 4) {
                                    Err(e) => Err(e),
                                    Ok(n) => {
                                        push_text(&mut s.text, " -> ");
                                        push_text(&mut s.text, n.text.as_str());
                                        push_text(&mut s.text, ",");
                                        let mut nd = n.defs;
                                        let mut nr = n.refs;
                                        s.defs.append(&mut nd);
                                        s.refs.append(&mut nr);
                                        assert(s@ =~= SigView {
                                            text: closed + " -> "@ + n@.text + ","@,
                                            defs: sv.defs + n@.defs,
                                            refs: sv.refs + n@.refs,
                                        });
                                        Ok(s)
                                    },
                                }
                            },
                        }
                    },
                }
            },
            _ => {
                proof {
                    assert(false);
                }
                Err("Ty")
            },
        }
    }

    /// The signature of a type alias, an enum, a struct, a union, a trait or
    /// an impl, or why an item has none.
    #[verifier::rlimit(100)]
    #[verifier::spinoff_prover]
    fn make_decl(&self, offset: usize) -> (r: Result<Signature, &'static str>)
        requires
            !(self.node is Static || self.node is Const || self.node is Fn || self.node is Mod),
            item_sane(*self),
            offset + item_size(*self) <= usize::MAX,
        ensures
            match r {
                Ok(s) => item_sig(*self, offset as int) == Ok::<SigView, Seq<char>>(s@),
                Err(e) => item_sig(*self, offset as int) == Err::<SigView, Seq<char>>(e@),
            },
    {
        match &self.node {
            ItemKind::Ty(ty, g) => {
                proof {
                    lemma_size_min(*ty);
                    lemma_pieces_alias();
                }
                let mut head = String::new();
                push_text(&mut head, "type ");
                let ng = name_and_generics(self, head, g, offset);
                let ghost ngv = ng@;
                let mut text = ng.text;
                push_text(&mut text, " = ");
                proof {
                    lemma_blen_concat(ngv.text, " = "@);
                }
                let ghost hv = text@;
                match ty.make(offset + byte_len(&text)) {
                    Err(e) => Err(e),
                    Ok(t) => {
                        push_text(&mut text, t.text.as_str());
                        push_text(&mut text, ";");
                        let mut defs = ng.defs;
                        let mut refs = ng.refs;
                        let mut td = t.defs;
                        let mut tr = t.refs;
                        defs.append(&mut td);
                        refs.append(&mut tr);
                        let r = Signature { text, defs, refs };
                        assert(r@ =~= SigView {
                            text: hv + t@.text + ";"@,
                            defs: ngv.defs + t@.defs,
                            refs: ngv.refs + t@.refs,
                        });
                        Ok(r)
                    },
                }
            },
            ItemKind::Enum(g) => {
                proof {
                    lemma_pieces_adt();
                }
                let mut head = String::new();
                push_text(&mut head, "enum ");
                let ng = name_and_generics(self, head, g, offset);
                let ghost ngv = ng@;
                let r = enclose("", ng, " {}");
                assert(r@ =~= with_text(ngv, ngv.text + " {}"@));
                Ok(r)
            },
            ItemKind::Struct(g) => {
                proof {
                    lemma_pieces_adt();
                }
                let mut head = String::new();
                push_text(&mut head, "struct ");
                let ng = name_and_generics(self, head, g, offset);
                let ghost ngv = ng@;
                let r = enclose("", ng, " {}");
                assert(r@ =~= with_text(ngv, ngv.text + " {}"@));
                Ok(r)
            },
            ItemKind::Union(g) => {
                proof {
                    lemma_pieces_adt();
                }
                let mut head = String::new();
                push_text(&mut head, "union ");
                let ng = name_and_generics(self, head, g, offset);
                let ghost ngv = ng@;
                let r = enclose("", ng, " {}");
                assert(r@ =~= with_text(ngv, ngv.text + " {}"@));
                Ok(r)
            },
            ItemKind::Trait(unsafety, g, bounds) => {
                proof {
                    lemma_pieces_adt();
                    lemma_strs_nonneg(texts(bounds@));
                    lemma_joined_len(texts(bounds@), " + "@);
                }
                let mut head = String::new();
                match unsafety {
                    Unsafety::Unsafe => push_text(&mut head, "unsafe "),
                    Unsafety::Normal => {},
                }
                push_text(&mut head, "trait ");
                proof {
                    assert(head@ =~= unsafe_prefix(*unsafety) + "trait "@);
                    lemma_blen_concat(unsafe_prefix(*unsafety), "trait "@);
                }
                let ng = name_and_generics(self, head, g, offset);
                let mut tail = String::new();
                if bounds.len() > 0 {
                    push_text(&mut tail, ": ");
                    let b = join_texts(bounds, " + ");
                    push_text(&mut tail, b.as_str());
                }
                push_text(&mut tail, " {}");
                assert(tail@ =~= (if bounds@.len() > 0 { ": "@ + joined(texts(bounds@), " + "@) } else { Seq::<char>::empty() }) + " {}"@);
                let ghost ngv = ng@;
                let r = enclose("", ng, tail.as_str());
                assert(r@ =~= with_text(
                    ngv,
                    ngv.text + (if bounds@.len() > 0 { ": "@ + joined(texts(bounds@), " + "@) } else { Seq::<char>::empty() }) + " {}"@,
                ));
                Ok(r)
            },
            ItemKind::DefaultImpl(unsafety, path) => {
                proof {
                    lemma_pieces_impl();
                }
                let mut head = String::new();
                match unsafety {
                    Unsafety::Unsafe => push_text(&mut head, "unsafe "),
                    Unsafety::Normal => {},
                }
                push_text(&mut head, "impl ");
                proof {
                    assert(head@ =~= unsafe_prefix(*unsafety) + "impl "@);
                    lemma_blen_concat(unsafe_prefix(*unsafety), "impl "@);
                    lemma_strs_nonneg(texts(path.segments@));
                }
                match path.make(offset + byte_len(&head), self.path_def) {
                    Err(e) => Err(e),
                    Ok(ts) => Ok(enclose(head.as_str(), ts, " for .. {}")),
                }
            },
            ItemKind::Impl(..) => self.make_impl(offset),
            ItemKind::ForeignMod => Err("extern mod"),
            ItemKind::GlobalAsm => Err("glboal asm"),
            ItemKind::ExternCrate => Err("extern crate"),
            ItemKind::Use => Err("import"),
            ItemKind::Mac => Err("Macro"),
            ItemKind::MacroDef => Err("Macro"),
            _ => {
                proof {
                    assert(false);
                }
                Err("Ty")
            },
        }
    }

    /// The signature of an impl.
    #[verifier::rlimit(100)]
    #[verifier::spinoff_prover]
    fn make_impl(&self, offset: usize) -> (r: Result<Signature, &'static str>)
        requires
            self.node is Impl,
            item_sane(*self),
            offset + item_size(*self) <= usize::MAX,
        ensures
            match r {
                Ok(s) => item_sig(*self, offset as int) == Ok::<SigView, Seq<char>>(s@),
                Err(e) => item_sig(*self, offset as int) == Err::<SigView, Seq<char>>(e@),
            },
    {
        proof {
            lemma_pieces_impl();
        }
        match &self.node {
            ItemKind::Impl(unsafety, polarity, defaultness, g, tr, ty) => {
                proof {
                    lemma_size_min(*ty);
                    lemma_params_size_nonneg(g.lifetimes@ + g.ty_params@);
                    match tr {
                        Some(p) => lemma_strs_nonneg(texts(p.segments@)),
                        None => {},
                    }
                }
                let mut text = String::new();
                match defaultness {
                    Defaultness::Default => push_text(&mut text, "default "),
                    Defaultness::Final => {},
                }
                let ghost d = text@;
                match unsafety {
                    Unsafety::Unsafe => push_text(&mut text, "unsafe "),
                    Unsafety::Normal => {},
                }
                push_text(&mut text, "impl");
                let ghost head = text@;
                proof {
                    assert(head =~= d + unsafe_prefix(*unsafety) + "impl"@);
                    lemma_blen_concat(d, unsafe_prefix(*unsafety));
                    lemma_blen_concat(d + unsafe_prefix(*unsafety), "impl"@);
                    assert(blen(head) <= 19);
                }
                let gs = match g.make(offset + byte_len(&text)) {
                    Ok(gs) => gs,
                    Err(_) => {
                        proof {
                            assert(false);
                        }
                        return Err("Ty");
                    },
                };
                push_text(&mut text, gs.text.as_str());
                push_text(&mut text, " ");
                proof {
                    lemma_blen_concat(head, gs@.text);
                    lemma_blen_concat(head + gs@.text, " "@);
                }
                let ghost t1 = text@;
                let ts = match tr {
                    None => text_sig(String::new()),
                    Some(p) => {
                        match polarity {
                            ImplPolarity::Negative => push_text(&mut text, "!"),
                            ImplPolarity::Positive => {},
                        }
                        let ghost t2 = text@;
                        let ghost bang = if *polarity is Negative { "!"@ } else { Seq::<char>::empty() };
                        proof {
                            assert(t2 =~= t1 + bang);
                            lemma_blen_concat(t1, bang);
                        }
                        match p.make(offset + byte_len(&text), self.path_def) {
                            Err(e) => {
                                return Err(e);
                            },
                            Ok(ts) => {
                                push_text(&mut text, ts.text.as_str());
                                push_text(&mut text, " for ");
                                proof {
                                    lemma_blen_concat(t2, ts@.text);
                                    lemma_blen_concat(t2 + ts@.text, " for "@);
                                }
                                ts
                            },
                        }
                    },
                };
                let ghost t3 = text@;
                match ty.make(offset + byte_len(&text)) {
                    Err(e) => Err(e),
                    Ok(tys) => {
                        push_text(&mut text, tys.text.as_str());
                        push_text(&mut text, " {}");
                        let mut defs = gs.defs;
                        let mut refs = gs.refs;
                        let mut a = ts.defs;
                        let mut b = ts.refs;
                        let mut c = tys.defs;
                        let mut e = tys.refs;
                        defs.append(&mut a);
                        refs.append(&mut b);
                        defs.append(&mut c);
                        refs.append(&mut e);
                        let r = Signature { text, defs, refs };
                        assert(r@ =~= SigView {
                            text: t3 + tys@.text + " {}"@,
                            defs: gs@.defs + ts@.defs + tys@.defs,
                            refs: gs@.refs + ts@.refs + tys@.refs,
                        });
                        Ok(r)
                    },
                }
            },
            _ => {
                proof {
                    assert(false);
                }
                Err("Ty")
            },
        }
    }

}

/// The length in bytes of a text.
fn str_len(s: &str) -> (n: usize)
    requires
        blen(s@) <= usize::MAX,
    ensures
        n == blen(s@),
{
    reveal(blen);
    s.len()
}

/// The length in bytes of a string.
fn byte_len(s: &String) -> (n: usize)
    requires
        blen(s@) <= usize::MAX,
    ensures
        n == blen(s@),
{
    reveal(blen);
    s.as_str().len()
}

/// A signature with `prefix` before its text and `suffix` after it.
fn enclose(prefix: &str, n: Signature, suffix: &str) -> (r: Signature)
    ensures
        r@ == with_text(n@, prefix@ + n@.text + suffix@),
        blen(r@.text) == blen(prefix@) + blen(n@.text) + blen(suffix@),
{
    let mut text = String::new();
    push_text(&mut text, prefix);
    push_text(&mut text, n.text.as_str());
    push_text(&mut text, suffix);
    proof {
        assert(text@ =~= prefix@ + n@.text + suffix@);
        lemma_blen_concat(prefix@, n@.text);
        lemma_blen_concat(prefix@ + n@.text, suffix@);
    }
    let r = Signature { text, defs: n.defs, refs: n.refs };
    assert(r@ =~= with_text(n@, prefix@ + n@.text + suffix@));
    r
}

/// Appends `s` with each line break made a space.
fn push_one_line(out: &mut String, s: &str)
    ensures
        final(out)@ == old(out)@ + one_line(s@),
{
    let cs = crate::strings::chars_of(s);
    let mut i: usize = 0;
    while i < cs.len()
        invariant
            i <= cs@.len(),
            cs@ == s@,
            out@ == old(out)@ + one_line(cs@.subrange(0, i as int)),
        decreases cs@.len() - i,
    {
        let c = if cs[i] == '\n' { ' ' } else { cs[i] };
        crate::strings::push_char(out, c);
        i = i + 1;
        assert(one_line(cs@.subrange(0, i as int)) =~= one_line(cs@.subrange(0, i - 1)).push(c));
        assert(out@ =~= old(out)@ + one_line(cs@.subrange(0, i as int)));
    }
    assert(cs@.subrange(0, cs@.len() as int) =~= s@);
}

/// The texts of some strings joined by `sep`.
fn join_texts(ls: &Vec<String>, sep: &str) -> (r: String)
    ensures
        r@ == joined(texts(ls@), sep@),
{
    let mut r = String::new();
    let mut j: usize = 0;
    while j < ls.len()
        invariant
            j <= ls@.len(),
            r@ == joined(texts(ls@).subrange(0, j as int), sep@),
        decreases ls@.len() - j,
    {
        let ghost before = texts(ls@).subrange(0, j as int);
        if j > 0 {
            push_text(&mut r, sep);
        }
        push_text(&mut r, ls[j].as_str());
        j = j + 1;
        proof {
            let now = texts(ls@).subrange(0, j as int);
            assert(now.drop_last() =~= before);
            assert(now.last() == ls@[j - 1]@);
            if j == 1 {
                assert(before.len() == 0);
                assert(r@ =~= now[0]);
            }
        }
    }
    assert(texts(ls@).subrange(0, ls@.len() as int) =~= texts(ls@));
    r
}

/// A signature with only a text.
fn text_sig(text: String) -> (r: Signature)
    ensures
        r@ == text_only(text@),
{
    let r = Signature { text, defs: Vec::new(), refs: Vec::new() };
    assert(r@ =~= text_only(text@));
    r
}

/// `acc` followed by the signatures of the types, each followed by a
/// comma, at byte `offset` of the enclosing signature.
#[verifier::rlimit(60)]
fn push_tys(ts: &Vec<Ty>, offset: usize, init: Signature) -> (r: Result<Signature, &'static str>)
    requires
        all_sane(ts@),
        offset + blen(init@.text) + sizes(ts@) <= usize::MAX,
    ensures
        match r {
            Ok(s) => tys_sig(ts@, offset as int, init@) == Ok::<SigView, Seq<char>>(s@)
                && blen(s@.text) <= blen(init@.text) + sizes(ts@),
            Err(e) => tys_sig(ts@, offset as int, init@) == Err::<SigView, Seq<char>>(e@),
        },
    decreases ts, 1nat,
{
    let mut acc = init;
    let ghost acc0 = acc@;
    let ghost len = ts@.len() as int;
    let mut i: usize = 0;
    proof {
        assert(ts@.subrange(0, len) =~= ts@);
        lemma_sizes_nonneg(ts@);
    }
    while i < ts.len()
        invariant
            0 <= i <= ts@.len(),
            len == ts@.len(),
            acc0 == init@,
            all_sane(ts@),
            offset + blen(acc0.text) + sizes(ts@) <= usize::MAX,
            tys_sig(ts@, offset as int, acc0) == tys_sig(ts@.subrange(i as int, len), offset as int, acc@),
            blen(acc@.text) <= blen(acc0.text) + sizes(ts@.subrange(0, i as int)),
            blen(acc0.text) >= 0,
        decreases len - i,
    {
        proof {
            lemma_sizes_prefix(ts@, i as int);
            lemma_all_sane_at(ts@, i as int);
            lemma_sizes_nonneg(ts@.subrange(0, i as int));
        }
        let cur = byte_len(&acc.text);
        match ts[i].make(offset + cur) {
            Err(e) => {
                proof {
                    lemma_tys_step(ts@, i as int, offset as int, acc@);
                }
                return Err(e);
            },
            Ok(n) => {
                let ghost before = acc@;
                push_text(&mut acc.text, n.text.as_str());
                push_text(&mut acc.text, ",");
                let mut nd = n.defs;
                let mut nr = n.refs;
                acc.defs.append(&mut nd);
                acc.refs.append(&mut nr);
                proof {
                    lemma_pieces_brackets();
                    lemma_tys_step(ts@, i as int, offset as int, before);
                    assert(acc@ =~= SigView {
                        text: before.text + n@.text + ","@,
                        defs: before.defs + n@.defs,
                        refs: before.refs + n@.refs,
                    });
                    lemma_blen_concat(before.text, n@.text);
                    lemma_blen_concat(before.text + n@.text, ","@);
                }
            },
        }
        i = i + 1;
    }
    proof {
        assert(ts@.subrange(len, len).len() == 0);
    }
    Ok(acc)
}

impl Ty {
    /// The signature of this type at byte `offset` of the enclosing
    /// signature, or why there is none.
    #[verifier::rlimit(100)]
    #[verifier::spinoff_prover]
    pub fn make(&self, offset: usize) -> (r: Result<Signature, &'static str>)
        requires
            sane(*self),
            offset + size(*self) <= usize::MAX,
        ensures
            match r {
                Ok(s) => ty_sig(*self, offset as int) == Ok::<SigView, Seq<char>>(s@)
                    && blen(s@.text) + 32 <= size(*self),
                Err(e) => ty_sig(*self, offset as int) == Err::<SigView, Seq<char>>(e@),
            },
        decreases self, 1nat,
    {
        match &self.node {
            TyKind::Slice(inner) => {
                proof { lemma_size_min(**inner); lemma_pieces_brackets(); }
                match inner.make(offset + 1) {
                    Err(e) => Err(e),
                    Ok(n) => Ok(enclose("[", n, "]")),
                }
            },
            TyKind::Ptr(mt) => {
                let prefix = match mt.mutbl {
                    Mutability::Mutable => "*mut ",
                    Mutability::Immutable => "*const ",
                };
                assert(prefix@ == ptr_prefix(mt.mutbl));
                proof { lemma_size_min(*mt.ty); lemma_pieces_ref(); }
                match mt.ty.make(offset + str_len(prefix)) {
                    Err(e) => Err(e),
                    Ok(n) => Ok(enclose(prefix, n, "")),
                }
            },
            TyKind::Rptr(lifetime, mt) => {
                let mut prefix = String::new();
                push_text(&mut prefix, "&");
                match lifetime {
                    Some(l) => {
                        push_text(&mut prefix, l.as_str());
                        push_text(&mut prefix, " ");
                    },
                    None => {},
                }
                match mt.mutbl {
                    Mutability::Mutable => push_text(&mut prefix, "mut "),
                    Mutability::Immutable => {},
                }
                proof {
                    lemma_size_min(*mt.ty);
                    lemma_pieces_ref();
                    match lifetime {
                        Some(l) => {
                            lemma_blen_concat("&"@, l@);
                            lemma_blen_concat("&"@ + l@, " "@);
                            match mt.mutbl {
                                Mutability::Mutable => {
                                    assert(prefix@ =~= "&"@ + l@ + " "@ + "mut "@);
                                    lemma_blen_concat("&"@ + l@ + " "@, "mut "@);
                                },
                                Mutability::Immutable => {
                                    assert(prefix@ =~= "&"@ + l@ + " "@);
                                },
                            }
                        },
                        None => {
                            match mt.mutbl {
                                Mutability::Mutable => {
                                    assert(prefix@ =~= "&"@ + "mut "@);
                                    lemma_blen_concat("&"@, "mut "@);
                                },
                                Mutability::Immutable => {
                                    assert(prefix@ =~= "&"@);
                                },
                            }
                        },
                    }
                    assert(prefix@ =~= rptr_prefix(*lifetime, mt.mutbl));
                }
                match mt.ty.make(offset + byte_len(&prefix)) {
                    Err(e) => Err(e),
                    Ok(n) => Ok(enclose(prefix.as_str(), n, "")),
                }
            },
            TyKind::Never => {
                proof { lemma_pieces_misc(); }
                let mut text = String::new();
                push_text(&mut text, "!");
                Ok(text_sig(text))
            },
            TyKind::Tup(ts) => {
                proof { lemma_sizes_nonneg(ts@); lemma_pieces_brackets(); }
                let mut head = String::new();
                push_text(&mut head, "(");
                match push_tys(ts, offset, text_sig(head)) {
                    Err(e) => Err(e),
                    Ok(s) => Ok(enclose("", s, ")")),
                }
            },
            TyKind::Paren(inner) => {
                proof { lemma_size_min(**inner); lemma_pieces_brackets(); }
                match inner.make(offset + 1) {
                    Err(e) => Err(e),
                    Ok(n) => Ok(enclose("(", n, ")")),
                }
            },
            TyKind::BareFn(_) => self.make_bare_fn(offset),
            TyKind::Path(None, path, def) => {
                proof { lemma_strs_nonneg(texts(path.segments@)); }
                path.make(offset, Some(*def))
            },
            TyKind::Path(Some(_), _, _) => self.make_qpath(offset),
            TyKind::TraitObject(bounds) => {
                Ok(text_sig(bounds.clone()))
            },
            TyKind::ImplTrait(bounds) => {
                let mut text = String::new();
                push_text(&mut text, "impl ");
                push_text(&mut text, bounds.as_str());
                proof {
                    lemma_pieces_misc();
                    lemma_blen_concat("impl "@, bounds@);
                }
                Ok(text_sig(text))
            },
            TyKind::Array(inner, len) => {
                proof { lemma_size_min(**inner); lemma_pieces_brackets(); }
                match inner.make(offset + 1) {
                    Err(e) => Err(e),
                    Ok(n) => {
                        let mut tail = String::new();
                        push_text(&mut tail, "; ");
                        push_one_line(&mut tail, len.as_str());
                        push_text(&mut tail, "]");
                        proof {
                            lemma_one_line_len(len@);
                            lemma_blen_concat("; "@, one_line(len@));
                            lemma_blen_concat("; "@ + one_line(len@), "]"@);
                            assert(n@.text + tail@ =~= n@.text + "; "@ + one_line(len@) + "]"@);
                            assert("["@ + n@.text + tail@ =~= "["@ + n@.text + "; "@ + one_line(len@) + "]"@);
                        }
                        Ok(enclose("[", n, tail.as_str()))
                    },
                }
            },
            _ => Err("Ty"),
        }
    }

    /// The signature of a function pointer type.
    #[verifier::rlimit(60)]
    fn make_bare_fn(&self, offset: usize) -> (r: Result<Signature, &'static str>)
        requires
            self.node is BareFn,
            sane(*self),
            offset + size(*self) <= usize::MAX,
        ensures
            match r {
                Ok(s) => ty_sig(*self, offset as int) == Ok::<SigView, Seq<char>>(s@)
                    && blen(s@.text) + 32 <= size(*self),
                Err(e) => ty_sig(*self, offset as int) == Err::<SigView, Seq<char>>(e@),
            },
        decreases self, 0nat,
    {
        proof {
            lemma_pieces_fn();
        }
        match &self.node {
            TyKind::BareFn(f) => {
                let ghost lts = texts(f.lifetimes@);
                let ghost pa = if f.lifetimes@.len() > 0 {
                    "for<"@ + joined(lts, ", "@) + ">"@
                } else {
                    Seq::<char>::empty()
                };
                let ghost pb = match f.unsafety {
                    Unsafety::Unsafe => "unsafe "@,
                    Unsafety::Normal => Seq::<char>::empty(),
                };
                let ghost pc = match &f.abi {
                    Some(a) => "extern"@ + a@ + " "@,
                    None => Seq::<char>::empty(),
                };
                let ghost abi_len = match &f.abi {
                    Some(a) => blen(a@),
                    None => 0,
                };
                proof {
                    lemma_strs_nonneg(lts);
                    lemma_sizes_nonneg(f.inputs@);
                    lemma_joined_len(lts, ", "@);
                    assert(lts.len() == f.lifetimes@.len());
                }
                let mut head = String::new();
                if f.lifetimes.len() > 0 {
                    push_text(&mut head, "for<");
                    let lifetimes = join_texts(&f.lifetimes, ", ");
                    push_text(&mut head, lifetimes.as_str());
                    push_text(&mut head, ">");
                    proof {
                        lemma_blen_concat("for<"@, joined(lts, ", "@));
                        lemma_blen_concat("for<"@ + joined(lts, ", "@), ">"@);
                    }
                }
                assert(head@ =~= pa);
                assert(blen(pa) <= strs(lts) + 2 * lts.len() + 5);
                match f.unsafety {
                    Unsafety::Unsafe => push_text(&mut head, "unsafe "),
                    Unsafety::Normal => {},
                }
                assert(head@ =~= pa + pb);
                assert(blen(pb) <= 7);
                match &f.abi {
                    Some(a) => {
                        push_text(&mut head, "extern");
                        push_text(&mut head, a.as_str());
                        push_text(&mut head, " ");
                        proof {
                            lemma_blen_concat("extern"@, a@);
                            lemma_blen_concat("extern"@ + a@, " "@);
                        }
                    },
                    None => {},
                }
                assert(head@ =~= pa + pb + pc);
                assert(blen(pc) <= 7 + abi_len);
                assert(abi_len >= 0);
                push_text(&mut head, "fn(");
                proof {
                    assert(head@ =~= pa + pb + pc + "fn("@);
                    assert(head@ =~= bare_fn_head(*f));
                    lemma_blen_concat(pa, pb);
                    lemma_blen_concat(pa + pb, pc);
                    lemma_blen_concat(pa + pb + pc, "fn("@);
                }
                let out_size: Ghost<int> = Ghost(match &f.output {
                    Some(t) => size(**t),
                    None => 0,
                });
                proof {
                    match &f.output {
                        Some(t) => lemma_size_min(**t),
                        None => {},
                    }
                    assert(size(*self) == 64 + strs(lts) + 2 * lts.len() + abi_len + sizes(f.inputs@) + out_size@);
                }
                match push_tys(&f.inputs, offset, text_sig(head)) {
                    Err(e) => Err(e),
                    Ok(s) => {
                        let ghost sv = s@;
                        let mut s = s;
                        push_text(&mut s.text, ")");
                        proof {
                            lemma_blen_concat(sv.text, ")"@);
                        }
                        match &f.output {
                            None => {
                                assert(s@ =~= with_text(sv, sv.text + ")"@));
                                Ok(s)
                            },
                            Some(t) => {
                                let ghost closed = s@.text;
                                proof {
                                    lemma_blen_concat(closed, " -> "@);
                                }
                                let cur = byte_len(&s.text);
                                match t.make(offset + cur + 4) {
                                    Err(e) => Err(e),
                                    Ok(n) => {
                                        push_text(&mut s.text, " -> ");
                                        push_text(&mut s.text, n.text.as_str());
                                        push_text(&mut s.text, ",");
                                        let mut nd = n.defs;
                                        let mut nr = n.refs;
                                        s.defs.append(&mut nd);
                                        s.refs.append(&mut nr);
                                        proof {
                                            lemma_blen_concat(closed + " -> "@, n@.text);
                                            lemma_blen_concat(closed + " -> "@ + n@.text, ","@);
                                            assert(s@ =~= SigView {
                                                text: closed + " -> "@ + n@.text + ","@,
                                                defs: sv.defs + n@.defs,
                                                refs: sv.refs + n@.refs,
                                            });
                                        }
                                        Ok(s)
                                    },
                                }
                            },
                        }
                    },
                }
            },
            _ => {
                proof {
                    assert(false);
                }
                Err("Ty")
            },
        }
    }

    /// The signature of a qualified path type.
    fn make_qpath(&self, offset: usize) -> (r: Result<Signature, &'static str>)
        requires
            self.node matches TyKind::Path(Some(_), _, _),
            sane(*self),
            offset + size(*self) <= usize::MAX,
        ensures
            match r {
                Ok(s) => ty_sig(*self, offset as int) == Ok::<SigView, Seq<char>>(s@)
                    && blen(s@.text) + 32 <= size(*self),
                Err(e) => ty_sig(*self, offset as int) == Err::<SigView, Seq<char>>(e@),
            },
        decreases self, 0nat,
    {
        proof {
            lemma_pieces_qpath();
        }
        match &self.node {
            TyKind::Path(Some(q), path, def) => {
                let ghost segs = texts(path.segments@);
                proof {
                    lemma_size_min(*q.ty);
                    lemma_strs_nonneg(segs);
                }
                match q.ty.make(offset + 1) {
                    Err(e) => Err(e),
                    Ok(nested) => {
                        let ghost nt = nested@.text;
                        let mut prefix = String::new();
                        push_text(&mut prefix, "<");
                        push_text(&mut prefix, nested.text.as_str());
                        proof {
                            lemma_blen_concat("<"@, nt);
                        }
                        if q.position == 0 {
                            push_text(&mut prefix, ">::");
                            proof {
                                lemma_blen_concat("<"@ + nt, ">::"@);
                                assert(prefix@ =~= "<"@ + nt + ">::"@);
                            }
                        } else if q.position == 1 {
                            push_text(&mut prefix, " as ");
                            push_text(&mut prefix, path.segments[0].as_str());
                            push_text(&mut prefix, ">::");
                            proof {
                                assert(segs[0] == path.segments@[0]@);
                                lemma_strs_le(segs, 0);
                                lemma_blen_concat("<"@ + nt, " as "@);
                                lemma_blen_concat("<"@ + nt + " as "@, segs[0]);
                                lemma_blen_concat("<"@ + nt + " as "@ + segs[0], ">::"@);
                                assert(prefix@ =~= "<"@ + nt + " as "@ + segs[0] + ">::"@);
                            }
                        } else {
                            push_text(&mut prefix, " as ...>::");
                            proof {
                                lemma_blen_concat("<"@ + nt, " as ...>::"@);
                                assert(prefix@ =~= "<"@ + nt + " as ...>::"@);
                            }
                        }
                        assert(blen(prefix@) <= blen(nt) + 11 + strs(segs));
                        let len = path.segments.len();
                        if len == 0 {
                            return Err("Bad path");
                        }
                        let name = path.segments[len - 1].as_str();
                        proof {
                            assert(segs[len - 1] == name@);
                            assert(segs.last() == name@);
                            lemma_strs_le(segs, len - 1);
                        }
                        let id = Id { krate: def.def_id.krate, index: def.def_id.index };
                        let mut text = String::new();
                        push_text(&mut text, prefix.as_str());
                        let mut refs: Vec<SigElement> = Vec::new();
                        if len - q.position == 1 {
                            let start = offset + byte_len(&prefix);
                            let end = start + str_len(name);
                            push_text(&mut text, name);
                            refs.push(SigElement { id, start, end });
                            proof {
                                lemma_blen_concat(prefix@, name@);
                            }
                        } else {
                            let start = offset + byte_len(&prefix) + 5;
                            let end = start + str_len(name);
                            push_text(&mut text, "...::");
                            push_text(&mut text, name);
                            refs.push(SigElement { id, start, end });
                            proof {
                                lemma_blen_concat(prefix@, "...::"@);
                                lemma_blen_concat(prefix@ + "...::"@, name@);
                            }
                        }
                        let s = Signature { text, defs: Vec::new(), refs };
                        assert(ty_sig(*self, offset as int) == Ok::<SigView, Seq<char>>(s@));
                        Ok(s)
                    },
                }
            },
            _ => {
                proof {
                    assert(false);
                }
                Err("Ty")
            },
        }
    }
}

proof fn lemma_blen_concat(a: Seq<char>, b: Seq<char>)
    ensures
        blen(a + b) == blen(a) + blen(b),
{
    reveal(blen);
    crate::strings::lemma_encode_concat(a, b);
}

/// Law: the signature of a raw pointer type is `*mut ` (for a mutable
/// pointer) or `*const ` (for an immutable one) followed by the signature
/// of the pointee, which starts right after that text; the two texts
/// differ.
pub proof fn law_ptr_sig(t: Ty, offset: int)
    requires
        t.node is Ptr,
    ensures
        ({
            let mt = t.node->Ptr_0;
            let pre = if mt.mutbl == Mutability::Mutable {
                "*mut "@
            } else {
                "*const "@
            };
            ty_sig(t, offset) == match ty_sig(*mt.ty, offset + blen(pre)) {
                Ok(n) => Ok(SigView { text: pre + n.text, defs: n.defs, refs: n.refs }),
                Err(e) => Err::<SigView, Seq<char>>(e),
            }
        }),
        "*mut "@ != "*const "@,
{
    reveal_strlit("*mut ");
    reveal_strlit("*const ");
    assert("*mut "@[1] != "*const "@[1]);
}

/// The reference in a path's signature covers, in the bytes of the
/// signature's text counted from `offset`, exactly the bytes of the path's
/// last segment.
pub proof fn law_path_ref_spells_name(path: Path, offset: int, def: Def)
    requires
        0 <= offset,
        offset + 2 * strs(texts(path.segments@)) + 2 <= usize::MAX,
    ensures
        path_sig(path, offset, Some(def)) matches Ok(s) ==> {
            &&& s.refs.len() == 1
            &&& encode_utf8(s.text).subrange(s.refs[0].start - offset, s.refs[0].end - offset)
                == encode_utf8(texts(path.segments@).last())
        },
{
    reveal(blen);
    lemma_pieces_path();
    let segs = texts(path.segments@);
    lemma_strs_nonneg(segs);
    if segs.len() > 0 {
        lemma_strs_le(segs, segs.len() - 1);
    }
    if segs.len() >= 2 {
        lemma_strs_le(segs, segs.len() - 2);
        let seg1 = segs[segs.len() - 2];
        let seg2 = segs[segs.len() - 1];
        crate::strings::lemma_encode_concat(seg1, "::"@);
        crate::strings::lemma_encode_concat(seg1 + "::"@, seg2);
        let e = encode_utf8(seg1 + "::"@ + seg2);
        assert(e.subrange(blen(seg1) + 2int, blen(seg1) + 2int + blen(seg2)) =~= encode_utf8(seg2));
    }
    if segs.len() > 0 {
        let name = segs.last();
        assert(encode_utf8(name).subrange(0, blen(name) as int) =~= encode_utf8(name));
    }
}

/// One step of a list of type signatures: the next type's signature, or
/// its error.
proof fn lemma_tys_step(ts: Seq<Ty>, i: int, offset: int, acc: SigView)
    requires
        0 <= i < ts.len(),
    ensures
        tys_sig(ts.subrange(i, ts.len() as int), offset, acc) == match ty_sig(ts[i], offset + blen(acc.text)) {
            Err(e) => Err(e),
            Ok(n) => tys_sig(
                ts.subrange(i + 1, ts.len() as int),
                offset,
                SigView { text: acc.text + n.text + ","@, defs: acc.defs + n.defs, refs: acc.refs + n.refs },
            ),
        },
{
    let rest = ts.subrange(i, ts.len() as int);
    assert(rest[0] == ts[i]);
    assert(rest.subrange(1, rest.len() as int) =~= ts.subrange(i + 1, ts.len() as int));
}

/// One step of a list of parameters.
proof fn lemma_params_step(ps: Seq<GenericParam>, i: int, offset: int, acc: SigView)
    requires
        0 <= i < ps.len(),
    ensures
        params_sig(ps.subrange(i, ps.len() as int), offset, acc) == params_sig(
            ps.subrange(i + 1, ps.len() as int),
            offset,
            SigView {
                text: acc.text + param_text(ps[i]) + ","@,
                defs: acc.defs.push(
                    SigElement {
                        id: id_of(ps[i].def_id),
                        start: (offset + blen(acc.text)) as usize,
                        end: (offset + blen(acc.text) + blen(ps[i].name@)) as usize,
                    },
                ),
                refs: acc.refs,
            },
        ),
        params_size(ps.subrange(i, ps.len() as int)) == param_size(ps[i]) + params_size(
            ps.subrange(i + 1, ps.len() as int),
        ),
{
    let rest = ps.subrange(i, ps.len() as int);
    assert(rest[0] == ps[i]);
    assert(rest.drop_first() =~= ps.subrange(i + 1, ps.len() as int));
}

/// The parameters of two lists one after the other.
proof fn lemma_params_concat(a: Seq<GenericParam>, b: Seq<GenericParam>, offset: int, acc: SigView)
    ensures
        params_sig(a + b, offset, acc) == params_sig(b, offset, params_sig(a, offset, acc)),
        params_size(a + b) == params_size(a) + params_size(b),
    decreases a.len(),
{
    if a.len() == 0 {
        assert(a + b =~= b);
    } else {
        assert((a + b).drop_first() =~= a.drop_first() + b);
        assert((a + b)[0] == a[0]);
        let p = a[0];
        let start = offset + blen(acc.text);
        lemma_params_concat(
            a.drop_first(),
            b,
            offset,
            SigView {
                text: acc.text + param_text(p) + ","@,
                defs: acc.defs.push(
                    SigElement { id: id_of(p.def_id), start: start as usize, end: (start + blen(p.name@)) as usize },
                ),
                refs: acc.refs,
            },
        );
    }
}

proof fn lemma_params_size_nonneg(ps: Seq<GenericParam>)
    ensures
        params_size(ps) >= 0,
    decreases ps.len(),
{
    if ps.len() > 0 {
        lemma_params_size_nonneg(ps.drop_first());
        lemma_strs_nonneg(texts(ps[0].bounds@));
    }
}

/// The byte lengths of the pieces of generic parameters.
proof fn lemma_pieces_generics()
    ensures
        blen(Seq::<char>::empty()) == 0,
        blen(": "@) == 2,
        blen(" + "@) == 3,
        blen("<"@) == 1,
        blen(">"@) == 1,
{
    reveal(blen);
    reveal_strlit("<");
    reveal_strlit(">");
    vstd::utf8::is_ascii_chars_encode_utf8("<"@);
    vstd::utf8::is_ascii_chars_encode_utf8(">"@);
    reveal_strlit(": ");
    reveal_strlit(" + ");
    vstd::utf8::is_ascii_chars_encode_utf8(": "@);
    vstd::utf8::is_ascii_chars_encode_utf8(" + "@);
}

/// The byte lengths of the pieces of statics, constants and modules.
proof fn lemma_pieces_value()
    ensures
        blen(Seq::<char>::empty()) == 0,
        "static mut "@ == "static "@ + "mut "@,
        blen("static "@) == 7,
        blen("mut "@) == 4,
        blen("static mut "@) == 11,
        blen(": "@) == 2,
        blen(" = "@) == 3,
        blen(";"@) == 1,
        blen("const "@) == 6,
        blen("mod "@) == 4,
{
    reveal(blen);
    reveal_strlit("static ");
    reveal_strlit("mut ");
    reveal_strlit("static mut ");
    reveal_strlit(": ");
    reveal_strlit(" = ");
    reveal_strlit(";");
    reveal_strlit("const ");
    reveal_strlit("mod ");
    vstd::utf8::is_ascii_chars_encode_utf8("static "@);
    vstd::utf8::is_ascii_chars_encode_utf8("mut "@);
    vstd::utf8::is_ascii_chars_encode_utf8("static mut "@);
    vstd::utf8::is_ascii_chars_encode_utf8(": "@);
    vstd::utf8::is_ascii_chars_encode_utf8(" = "@);
    vstd::utf8::is_ascii_chars_encode_utf8(";"@);
    vstd::utf8::is_ascii_chars_encode_utf8("const "@);
    vstd::utf8::is_ascii_chars_encode_utf8("mod "@);
}

/// The byte lengths of the pieces of arguments.
proof fn lemma_pieces_args()
    ensures
        blen(": "@) == 2,
        blen(","@) == 1,
{
    reveal(blen);
    reveal_strlit(": ");
    reveal_strlit(",");
    vstd::utf8::is_ascii_chars_encode_utf8(": "@);
    vstd::utf8::is_ascii_chars_encode_utf8(","@);
}

/// The byte lengths of the pieces of function items.
proof fn lemma_pieces_fn_item()
    ensures
        blen(Seq::<char>::empty()) == 0,
        blen("const "@) == 6,
        blen("unsafe "@) == 7,
        blen("extern"@) == 6,
        blen(" "@) == 1,
        blen("fn "@) == 3,
        blen("("@) == 1,
        blen(")"@) == 1,
        blen(" -> "@) == 4,
        blen(","@) == 1,
{
    reveal(blen);
    reveal_strlit("const ");
    reveal_strlit("unsafe ");
    reveal_strlit("extern");
    reveal_strlit(" ");
    reveal_strlit("fn ");
    reveal_strlit("(");
    reveal_strlit(")");
    reveal_strlit(" -> ");
    reveal_strlit(",");
    vstd::utf8::is_ascii_chars_encode_utf8("const "@);
    vstd::utf8::is_ascii_chars_encode_utf8("unsafe "@);
    vstd::utf8::is_ascii_chars_encode_utf8("extern"@);
    vstd::utf8::is_ascii_chars_encode_utf8(" "@);
    vstd::utf8::is_ascii_chars_encode_utf8("fn "@);
    vstd::utf8::is_ascii_chars_encode_utf8("("@);
    vstd::utf8::is_ascii_chars_encode_utf8(")"@);
    vstd::utf8::is_ascii_chars_encode_utf8(" -> "@);
    vstd::utf8::is_ascii_chars_encode_utf8(","@);
}

/// The byte lengths of the pieces of type aliases.
proof fn lemma_pieces_alias()
    ensures
        blen(Seq::<char>::empty()) == 0,
        blen("type "@) == 5,
        blen(" = "@) == 3,
        blen(";"@) == 1,
{
    reveal(blen);
    reveal_strlit("type ");
    reveal_strlit(" = ");
    reveal_strlit(";");
    vstd::utf8::is_ascii_chars_encode_utf8("type "@);
    vstd::utf8::is_ascii_chars_encode_utf8(" = "@);
    vstd::utf8::is_ascii_chars_encode_utf8(";"@);
}

/// The byte lengths of the pieces of enums, structs, unions and traits.
proof fn lemma_pieces_adt()
    ensures
        ""@ == Seq::<char>::empty(),
        blen(Seq::<char>::empty()) == 0,
        blen("enum "@) == 5,
        blen("struct "@) == 7,
        blen("union "@) == 6,
        blen(" {}"@) == 3,
        blen(""@) == 0,
        blen("unsafe "@) == 7,
        blen("trait "@) == 6,
        blen(": "@) == 2,
        blen(" + "@) == 3,
{
    reveal(blen);
    reveal_strlit("enum ");
    reveal_strlit("struct ");
    reveal_strlit("union ");
    reveal_strlit(" {}");
    reveal_strlit("");
    reveal_strlit("unsafe ");
    reveal_strlit("trait ");
    reveal_strlit(": ");
    reveal_strlit(" + ");
    vstd::utf8::is_ascii_chars_encode_utf8("enum "@);
    vstd::utf8::is_ascii_chars_encode_utf8("struct "@);
    vstd::utf8::is_ascii_chars_encode_utf8("union "@);
    vstd::utf8::is_ascii_chars_encode_utf8(" {}"@);
    vstd::utf8::is_ascii_chars_encode_utf8(""@);
    vstd::utf8::is_ascii_chars_encode_utf8("unsafe "@);
    vstd::utf8::is_ascii_chars_encode_utf8("trait "@);
    vstd::utf8::is_ascii_chars_encode_utf8(": "@);
    vstd::utf8::is_ascii_chars_encode_utf8(" + "@);
}

/// The byte lengths of the pieces of impls.
proof fn lemma_pieces_impl()
    ensures
        ""@ == Seq::<char>::empty(),
        blen(Seq::<char>::empty()) == 0,
        blen("default "@) == 8,
        blen("unsafe "@) == 7,
        blen("impl"@) == 4,
        blen("impl "@) == 5,
        blen(" "@) == 1,
        blen("!"@) == 1,
        blen(" for "@) == 5,
        blen(" {}"@) == 3,
        blen(" for .. {}"@) == 10,
        blen(""@) == 0,
{
    reveal(blen);
    reveal_strlit("default ");
    reveal_strlit("unsafe ");
    reveal_strlit("impl");
    reveal_strlit("impl ");
    reveal_strlit(" ");
    reveal_strlit("!");
    reveal_strlit(" for ");
    reveal_strlit(" {}");
    reveal_strlit(" for .. {}");
    reveal_strlit("");
    vstd::utf8::is_ascii_chars_encode_utf8("default "@);
    vstd::utf8::is_ascii_chars_encode_utf8("unsafe "@);
    vstd::utf8::is_ascii_chars_encode_utf8("impl"@);
    vstd::utf8::is_ascii_chars_encode_utf8("impl "@);
    vstd::utf8::is_ascii_chars_encode_utf8(" "@);
    vstd::utf8::is_ascii_chars_encode_utf8("!"@);
    vstd::utf8::is_ascii_chars_encode_utf8(" for "@);
    vstd::utf8::is_ascii_chars_encode_utf8(" {}"@);
    vstd::utf8::is_ascii_chars_encode_utf8(" for .. {}"@);
    vstd::utf8::is_ascii_chars_encode_utf8(""@);
}

/// One step of a list of arguments.
proof fn lemma_args_step(args: Seq<Arg>, i: int, offset: int, acc: SigView)
    requires
        0 <= i < args.len(),
    ensures
        args_sig(args.subrange(i, args.len() as int), offset, acc) == match ty_sig(
            args[i].ty,
            offset + blen(acc.text + args[i].pat@ + ": "@),
        ) {
            Err(e) => Err(e),
            Ok(n) => args_sig(
                args.subrange(i + 1, args.len() as int),
                offset,
                SigView {
                    text: acc.text + args[i].pat@ + ": "@ + n.text + ","@,
                    defs: acc.defs + n.defs,
                    refs: acc.refs + n.refs,
                },
            ),
        },
        args_size(args.subrange(i, args.len() as int)) == blen(args[i].pat@) + size(args[i].ty) + 3 + args_size(
            args.subrange(i + 1, args.len() as int),
        ),
{
    let rest = args.subrange(i, args.len() as int);
    assert(rest[0] == args[i]);
    assert(rest.drop_first() =~= args.subrange(i + 1, args.len() as int));
}

proof fn lemma_args_size_nonneg(args: Seq<Arg>)
    ensures
        args_size(args) >= 0,
    decreases args.len(),
{
    if args.len() > 0 {
        lemma_args_size_nonneg(args.drop_first());
        lemma_size_min(args[0].ty);
    }
}

/// Each type of a sane list is sane.
proof fn lemma_all_sane_at(ts: Seq<Ty>, i: int)
    requires
        all_sane(ts),
        0 <= i < ts.len(),
    ensures
        sane(ts[i]),
    decreases ts.len(),
{
    if i < ts.len() - 1 {
        lemma_all_sane_at(ts.subrange(0, ts.len() - 1), i);
    }
}

/// The empty text has no bytes.
proof fn lemma_blen_empty()
    ensures
        blen(Seq::<char>::empty()) == 0,
{
    reveal(blen);
}

/// The byte lengths of brackets and separators.
proof fn lemma_pieces_brackets()
    ensures
        ""@ == Seq::<char>::empty(),
        blen(Seq::<char>::empty()) == 0,
        blen("["@) == 1,
        blen("]"@) == 1,
        blen("("@) == 1,
        blen(")"@) == 1,
        blen(","@) == 1,
        blen("; "@) == 2,
        blen(""@) == 0,
{
    reveal(blen);
    reveal_strlit("[");
    reveal_strlit("]");
    reveal_strlit("(");
    reveal_strlit(")");
    reveal_strlit(",");
    reveal_strlit("; ");
    reveal_strlit("");
    vstd::utf8::is_ascii_chars_encode_utf8("["@);
    vstd::utf8::is_ascii_chars_encode_utf8("]"@);
    vstd::utf8::is_ascii_chars_encode_utf8("("@);
    vstd::utf8::is_ascii_chars_encode_utf8(")"@);
    vstd::utf8::is_ascii_chars_encode_utf8(","@);
    vstd::utf8::is_ascii_chars_encode_utf8("; "@);
}

/// The byte lengths of the pieces of pointer and reference types.
proof fn lemma_pieces_ref()
    ensures
        ""@ == Seq::<char>::empty(),
        blen("*mut "@) == 5,
        blen("*const "@) == 7,
        blen("&"@) == 1,
        blen(" "@) == 1,
        blen("mut "@) == 4,
        blen(""@) == 0,
{
    reveal(blen);
    reveal_strlit("*mut ");
    reveal_strlit("*const ");
    reveal_strlit("&");
    reveal_strlit(" ");
    reveal_strlit("mut ");
    reveal_strlit("");
    vstd::utf8::is_ascii_chars_encode_utf8("*mut "@);
    vstd::utf8::is_ascii_chars_encode_utf8("*const "@);
    vstd::utf8::is_ascii_chars_encode_utf8("&"@);
    vstd::utf8::is_ascii_chars_encode_utf8(" "@);
    vstd::utf8::is_ascii_chars_encode_utf8("mut "@);
}

/// The byte lengths of the pieces of function pointer types.
proof fn lemma_pieces_fn()
    ensures
        blen("for<"@) == 4,
        blen(">"@) == 1,
        blen("unsafe "@) == 7,
        blen("extern"@) == 6,
        blen(" "@) == 1,
        blen("fn("@) == 3,
        blen(")"@) == 1,
        blen(" -> "@) == 4,
        blen(","@) == 1,
        blen(Seq::<char>::empty()) == 0,
        blen(", "@) == 2,
{
    reveal(blen);
    reveal_strlit(", ");
    vstd::utf8::is_ascii_chars_encode_utf8(", "@);
    reveal_strlit("for<");
    reveal_strlit(">");
    reveal_strlit("unsafe ");
    reveal_strlit("extern");
    reveal_strlit(" ");
    reveal_strlit("fn(");
    reveal_strlit(")");
    reveal_strlit(" -> ");
    reveal_strlit(",");
    vstd::utf8::is_ascii_chars_encode_utf8("for<"@);
    vstd::utf8::is_ascii_chars_encode_utf8(">"@);
    vstd::utf8::is_ascii_chars_encode_utf8("unsafe "@);
    vstd::utf8::is_ascii_chars_encode_utf8("extern"@);
    vstd::utf8::is_ascii_chars_encode_utf8(" "@);
    vstd::utf8::is_ascii_chars_encode_utf8("fn("@);
    vstd::utf8::is_ascii_chars_encode_utf8(")"@);
    vstd::utf8::is_ascii_chars_encode_utf8(" -> "@);
    vstd::utf8::is_ascii_chars_encode_utf8(","@);
}

/// The byte lengths of the pieces of qualified paths.
proof fn lemma_pieces_qpath()
    ensures
        blen("<"@) == 1,
        blen(">::"@) == 3,
        blen(" as "@) == 4,
        blen(" as ...>::"@) == 10,
        blen("...::"@) == 5,
{
    reveal(blen);
    reveal_strlit("<");
    reveal_strlit(">::");
    reveal_strlit(" as ");
    reveal_strlit(" as ...>::");
    reveal_strlit("...::");
    vstd::utf8::is_ascii_chars_encode_utf8("<"@);
    vstd::utf8::is_ascii_chars_encode_utf8(">::"@);
    vstd::utf8::is_ascii_chars_encode_utf8(" as "@);
    vstd::utf8::is_ascii_chars_encode_utf8(" as ...>::"@);
    vstd::utf8::is_ascii_chars_encode_utf8("...::"@);
}

/// The byte length of a path separator.
proof fn lemma_pieces_path()
    ensures
        blen("::"@) == 2,
{
    reveal(blen);
    reveal_strlit("::");
    vstd::utf8::is_ascii_chars_encode_utf8("::"@);
}

/// The byte lengths of the pieces of `!` and `impl` types.
proof fn lemma_pieces_misc()
    ensures
        blen("!"@) == 1,
        blen("impl "@) == 5,
{
    reveal(blen);
    reveal_strlit("!");
    reveal_strlit("impl ");
    vstd::utf8::is_ascii_chars_encode_utf8("!"@);
    vstd::utf8::is_ascii_chars_encode_utf8("impl "@);
}

/// A text is no longer than all the texts together.
proof fn lemma_strs_le(ls: Seq<Seq<char>>, i: int)
    requires
        0 <= i < ls.len(),
    ensures
        blen(ls[i]) <= strs(ls),
        strs(ls) >= 0,
    decreases ls.len(),
{
    lemma_strs_nonneg(ls.drop_last());
    if i < ls.len() - 1 {
        lemma_strs_le(ls.drop_last(), i);
    }
}

proof fn lemma_strs_nonneg(ls: Seq<Seq<char>>)
    ensures
        strs(ls) >= 0,
    decreases ls.len(),
{
    if ls.len() > 0 {
        lemma_strs_nonneg(ls.drop_last());
    }
}

/// Joining texts takes their bytes and those of a separator per text.
proof fn lemma_joined_len(ls: Seq<Seq<char>>, sep: Seq<char>)
    ensures
        blen(joined(ls, sep)) <= strs(ls) + blen(sep) * ls.len(),
    decreases ls.len(),
{
    assert(blen(sep) * ls.len() >= 0) by (nonlinear_arith);
    lemma_blen_empty();
    if ls.len() == 1 {
        assert(ls.drop_last().len() == 0);
        assert(strs(ls) == strs(ls.drop_last()) + blen(ls.last()));
    } else if ls.len() > 1 {
        let init = ls.drop_last();
        lemma_joined_len(init, sep);
        lemma_blen_concat(joined(init, sep), sep);
        lemma_blen_concat(joined(init, sep) + sep, ls.last());
        assert(joined(ls, sep) == joined(init, sep) + sep + ls.last());
        assert(strs(ls) == strs(init) + blen(ls.last()));
        assert(blen(sep) * ls.len() == blen(sep) * init.len() + blen(sep)) by (nonlinear_arith)
            requires
                ls.len() == init.len() + 1,
        ;
    }
}

/// Making line breaks spaces keeps the length.
proof fn lemma_one_line_len(s: Seq<char>)
    ensures
        blen(one_line(s)) == blen(s),
    decreases s.len(),
{
    reveal(blen);
    if s.len() > 0 {
        lemma_one_line_len(s.drop_first());
        assert(one_line(s).drop_first() =~= one_line(s.drop_first()));
        assert(one_line(s)[0] == (if s[0] == '\n' { ' ' } else { s[0] }));
    }
}

/// A prefix of a list of types is bounded by no more than the whole list.
proof fn lemma_sizes_prefix(ts: Seq<Ty>, i: int)
    requires
        0 <= i < ts.len(),
    ensures
        sizes(ts.subrange(0, i + 1)) == sizes(ts.subrange(0, i)) + size(ts[i]),
        sizes(ts.subrange(0, i + 1)) <= sizes(ts),
        size(ts[i]) >= 64,
    decreases ts.len(),
{
    assert(ts.subrange(0, i + 1).subrange(0, i) =~= ts.subrange(0, i));
    if i + 1 < ts.len() {
        lemma_sizes_prefix(ts.subrange(0, ts.len() - 1), i);
        assert(ts.subrange(0, ts.len() - 1).subrange(0, i + 1) =~= ts.subrange(0, i + 1));
        assert(ts.subrange(0, ts.len() - 1).subrange(0, i) =~= ts.subrange(0, i));
        lemma_size_min(ts[ts.len() - 1]);
    } else {
        assert(ts.subrange(0, i + 1) =~= ts);
    }
    lemma_size_min(ts[i]);
}

proof fn lemma_size_min(t: Ty)
    ensures
        size(t) >= 64,
{
    lemma_size_nonneg(t);
}

proof fn lemma_size_nonneg(t: Ty)
    ensures
        size(t) >= 64,
    decreases t, 0nat,
{
    match t.node {
        TyKind::Slice(b) => lemma_size_nonneg(*b),
        TyKind::Paren(b) => lemma_size_nonneg(*b),
        TyKind::Ptr(mt) => lemma_size_nonneg(*mt.ty),
        TyKind::Rptr(lifetime, mt) => {
            lemma_size_nonneg(*mt.ty);
        },
        TyKind::Tup(ts) => lemma_sizes_nonneg(ts@),
        TyKind::BareFn(f) => {
            lemma_sizes_nonneg(f.inputs@);
            lemma_strs_nonneg(texts(f.lifetimes@));
            match f.output {
                Some(o) => lemma_size_nonneg(*o),
                None => {},
            }
        },
        TyKind::Path(q, path, _) => {
            lemma_strs_nonneg(texts(path.segments@));
            match q {
                Some(q) => lemma_size_nonneg(*q.ty),
                None => {},
            }
        },
        TyKind::Array(b, _) => lemma_size_nonneg(*b),
        _ => {},
    }
}

proof fn lemma_sizes_nonneg(ts: Seq<Ty>)
    ensures
        sizes(ts) >= 0,
    decreases ts, 1nat,
{
    if ts.len() > 0 {
        lemma_sizes_nonneg(ts.subrange(0, ts.len() - 1));
        lemma_size_nonneg(ts[ts.len() - 1]);
    }
}

} // verus!
