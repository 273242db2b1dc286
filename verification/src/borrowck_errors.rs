//! The error reports of the borrow checker: for each kind of borrow
//! error, its code, its message and the places it labels. The message
//! ends with the origin of the report (see `Origin::suffix`).

use vstd::prelude::*;
use crate::mir::Origin;
use crate::outlives::TyKind;

verus! {

/// A place in the source: a range of bytes.
#[derive(Clone, Copy, Debug, PartialEq, Eq)]
pub struct Span {
    pub lo: u32,
    pub hi: u32,
}

/// An error report: where, its error code, its message, and labelled
/// places.
#[derive(Debug)]
pub struct Diagnostic {
    pub span: Span,
    pub code: String,
    pub message: String,
    pub labels: Vec<(Span, String)>,
}

/// The text that marks a report with its origin.
pub open spec fn origin_text(o: Origin, borrowck_mir: Option<bool>) -> Seq<char> {
    match o {
        Origin::Mir => " (Mir)"@,
        Origin::Ast => if borrowck_mir == Some(true) {
            " (Ast)"@
        } else {
            ""@
        },
    }
}

/// The labels of a report, as text.
pub open spec fn labels_view(labels: Seq<(Span, String)>) -> Seq<(Span, Seq<char>)> {
    labels.map_values(|l: (Span, String)| (l.0, l.1@))
}

/// Appends the characters of `s`.
fn push_text(out: &mut Vec<char>, s: &str)
    ensures
        final(out)@ == old(out)@ + s@,
{
    let cs = crate::strings::chars_of(s);
    let mut i: usize = 0;
    while i < cs.len()
        invariant
            i <= cs@.len(),
            out@ == old(out)@ + cs@.subrange(0, i as int),
        decreases cs@.len() - i,
    {
        out.push(cs[i]);
        i = i + 1;
        assert(out@ =~= old(out)@ + cs@.subrange(0, i as int));
    }
    assert(cs@.subrange(0, cs@.len() as int) =~= s@);
}

/// A report with a code and a message, and no labels yet.
fn report(span: Span, code: &str, message: &Vec<char>) -> (r: Diagnostic)
    ensures
        r.span == span,
        r.code@ == code@,
        r.message@ == message@,
        r.labels@.len() == 0,
{
    Diagnostic {
        span,
        code: code.to_owned(),
        message: crate::strings::string_of(message),
        labels: Vec::new(),
    }
}

/// Adds a labelled place to a report.
fn add_label(d: &mut Diagnostic, span: Span, label: &Vec<char>)
    ensures
        final(d).span == old(d).span,
        final(d).code@ == old(d).code@,
        final(d).message@ == old(d).message@,
        labels_view(final(d).labels@) == labels_view(old(d).labels@).push((span, label@)),
{
    let ghost before = d.labels@;
    d.labels.push((span, crate::strings::string_of(label)));
    assert(labels_view(d.labels@) =~= labels_view(before).push((span, label@)));
}

/// E0505: a value is moved while borrowed.
pub fn cannot_move_when_borrowed(span: Span, desc: &str, o: Origin, borrowck_mir: Option<bool>) -> (r: Diagnostic)
    ensures
        r.span == span,
        r.code@ == "E0505"@,
        r.message@ == "cannot move out of `"@ + desc@ + "` because it is borrowed"@ + origin_text(o, borrowck_mir),
        r.labels@.len() == 0,
{
    let mut m: Vec<char> = Vec::new();
    push_text(&mut m, "cannot move out of `");
    push_text(&mut m, desc);
    push_text(&mut m, "` because it is borrowed");
    push_text(&mut m, o.suffix(borrowck_mir));
    assert(m@ =~= "cannot move out of `"@ + desc@ + "` because it is borrowed"@ + origin_text(o, borrowck_mir));
    report(span, "E0505", &m)
}

/// E0503: a value is used while mutably borrowed; labels the borrow and
/// the use.
pub fn cannot_use_when_mutably_borrowed(
    span: Span,
    desc: &str,
    borrow_span: Span,
    borrow_desc: &str,
    o: Origin,
    borrowck_mir: Option<bool>,
) -> (r: Diagnostic)
    ensures
        r.span == span,
        r.code@ == "E0503"@,
        r.message@ == "cannot use `"@ + desc@ + "` because it was mutably borrowed"@ + origin_text(o, borrowck_mir),
        labels_view(r.labels@) == seq![
            (borrow_span, "borrow of `"@ + borrow_desc@ + "` occurs here"@),
            (span, "use of borrowed `"@ + borrow_desc@ + "`"@),
        ],
{
    let mut m: Vec<char> = Vec::new();
    push_text(&mut m, "cannot use `");
    push_text(&mut m, desc);
    push_text(&mut m, "` because it was mutably borrowed");
    push_text(&mut m, o.suffix(borrowck_mir));
    assert(m@ =~= "cannot use `"@ + desc@ + "` because it was mutably borrowed"@ + origin_text(o, borrowck_mir));
    let mut err = report(span, "E0503", &m);
    let mut l1: Vec<char> = Vec::new();
    push_text(&mut l1, "borrow of `");
    push_text(&mut l1, borrow_desc);
    push_text(&mut l1, "` occurs here");
    add_label(&mut err, borrow_span, &l1);
    let mut l2: Vec<char> = Vec::new();
    push_text(&mut l2, "use of borrowed `");
    push_text(&mut l2, borrow_desc);
    push_text(&mut l2, "`");
    add_label(&mut err, span, &l2);
    assert(labels_view(err.labels@) =~= seq![
        (borrow_span, "borrow of `"@ + borrow_desc@ + "` occurs here"@),
        (span, "use of borrowed `"@ + borrow_desc@ + "`"@),
    ]);
    err
}

/// E0381: a variable is used before it is surely initialized.
pub fn cannot_act_on_uninitialized_variable(span: Span, verb: &str, desc: &str, o: Origin, borrowck_mir: Option<bool>) -> (r: Diagnostic)
    ensures
        r.span == span,
        r.code@ == "E0381"@,
        r.message@ == verb@ + " of possibly uninitialized variable: `"@ + desc@ + "`"@ + origin_text(o, borrowck_mir),
        r.labels@.len() == 0,
{
    let mut m: Vec<char> = Vec::new();
    push_text(&mut m, verb);
    push_text(&mut m, " of possibly uninitialized variable: `");
    push_text(&mut m, desc);
    push_text(&mut m, "`");
    push_text(&mut m, o.suffix(borrowck_mir));
    assert(m@ =~= verb@ + " of possibly uninitialized variable: `"@ + desc@ + "`"@ + origin_text(o, borrowck_mir));
    report(span, "E0381", &m)
}

/// E0499: a value is mutably borrowed twice at once.
pub fn cannot_mutably_borrow_multiply(span: Span, desc: &str, opt_via: &str, o: Origin, borrowck_mir: Option<bool>) -> (r: Diagnostic)
    ensures
        r.span == span,
        r.code@ == "E0499"@,
        r.message@ == "cannot borrow `"@ + desc@ + "`"@ + opt_via@ + " as mutable more than once at a time"@ + origin_text(o, borrowck_mir),
        r.labels@.len() == 0,
{
    let mut m: Vec<char> = Vec::new();
    push_text(&mut m, "cannot borrow `");
    push_text(&mut m, desc);
    push_text(&mut m, "`");
    push_text(&mut m, opt_via);
    push_text(&mut m, " as mutable more than once at a time");
    push_text(&mut m, o.suffix(borrowck_mir));
    assert(m@ =~= "cannot borrow `"@ + desc@ + "`"@ + opt_via@ + " as mutable more than once at a time"@ + origin_text(o, borrowck_mir));
    report(span, "E0499", &m)
}

/// E0524: two closures need unique access to a value at once.
pub fn cannot_uniquely_borrow_by_two_closures(span: Span, desc: &str, o: Origin, borrowck_mir: Option<bool>) -> (r: Diagnostic)
    ensures
        r.span == span,
        r.code@ == "E0524"@,
        r.message@ == "two closures require unique access to `"@ + desc@ + "` at the same time"@ + origin_text(o, borrowck_mir),
        r.labels@.len() == 0,
{
    let mut m: Vec<char> = Vec::new();
    push_text(&mut m, "two closures require unique access to `");
    push_text(&mut m, desc);
    push_text(&mut m, "` at the same time");
    push_text(&mut m, o.suffix(borrowck_mir));
    assert(m@ =~= "two closures require unique access to `"@ + desc@ + "` at the same time"@ + origin_text(o, borrowck_mir));
    report(span, "E0524", &m)
}

/// E0500: a closure needs unique access to a value that is borrowed.
pub fn cannot_uniquely_borrow_by_one_closure(span: Span, desc_new: &str, noun_old: &str, msg_old: &str, o: Origin, borrowck_mir: Option<bool>) -> (r: Diagnostic)
    ensures
        r.span == span,
        r.code@ == "E0500"@,
        r.message@ == "closure requires unique access to `"@ + desc_new@ + "` but "@ + noun_old@ + " is already borrowed"@ + msg_old@ + origin_text(o, borrowck_mir),
        r.labels@.len() == 0,
{
    let mut m: Vec<char> = Vec::new();
    push_text(&mut m, "closure requires unique access to `");
    push_text(&mut m, desc_new);
    push_text(&mut m, "` but ");
    push_text(&mut m, noun_old);
    push_text(&mut m, " is already borrowed");
    push_text(&mut m, msg_old);
    push_text(&mut m, o.suffix(borrowck_mir));
    assert(m@ =~= "closure requires unique access to `"@ + desc_new@ + "` but "@ + noun_old@ + " is already borrowed"@ + msg_old@ + origin_text(o, borrowck_mir));
    report(span, "E0500", &m)
}

/// E0501: a value is borrowed while a closure has unique access to it.
pub fn cannot_reborrow_already_uniquely_borrowed(span: Span, desc_new: &str, msg_new: &str, kind_new: &str, o: Origin, borrowck_mir: Option<bool>) -> (r: Diagnostic)
    ensures
        r.span == span,
        r.code@ == "E0501"@,
        r.message@ == "cannot borrow `"@ + desc_new@ + "`"@ + msg_new@ + " as "@ + kind_new@ + " because previous closure requires unique access"@ + origin_text(o, borrowck_mir),
        r.labels@.len() == 0,
{
    let mut m: Vec<char> = Vec::new();
    push_text(&mut m, "cannot borrow `");
    push_text(&mut m, desc_new);
    push_text(&mut m, "`");
    push_text(&mut m, msg_new);
    push_text(&mut m, " as ");
    push_text(&mut m, kind_new);
    push_text(&mut m, " because previous closure requires unique access");
    push_text(&mut m, o.suffix(borrowck_mir));
    assert(m@ =~= "cannot borrow `"@ + desc_new@ + "`"@ + msg_new@ + " as "@ + kind_new@ + " because previous closure requires unique access"@ + origin_text(o, borrowck_mir));
    report(span, "E0501", &m)
}

/// E0502: a value is borrowed in a way its existing borrow forbids.
pub fn cannot_reborrow_already_borrowed(span: Span, desc_new: &str, msg_new: &str, kind_new: &str, noun_old: &str, kind_old: &str, msg_old: &str, o: Origin, borrowck_mir: Option<bool>) -> (r: Diagnostic)
    ensures
        r.span == span,
        r.code@ == "E0502"@,
        r.message@ == "cannot borrow `"@ + desc_new@ + "`"@ + msg_new@ + " as "@ + kind_new@ + " because "@ + noun_old@ + " is also borrowed as "@ + kind_old@ + msg_old@ + origin_text(o, borrowck_mir),
        r.labels@.len() == 0,
{
    let mut m: Vec<char> = Vec::new();
    push_text(&mut m, "cannot borrow `");
    push_text(&mut m, desc_new);
    push_text(&mut m, "`");
    push_text(&mut m, msg_new);
    push_text(&mut m, " as ");
    push_text(&mut m, kind_new);
    push_text(&mut m, " because ");
    push_text(&mut m, noun_old);
    push_text(&mut m, " is also borrowed as ");
    push_text(&mut m, kind_old);
    push_text(&mut m, msg_old);
    push_text(&mut m, o.suffix(borrowck_mir));
    assert(m@ =~= "cannot borrow `"@ + desc_new@ + "`"@ + msg_new@ + " as "@ + kind_new@ + " because "@ + noun_old@ + " is also borrowed as "@ + kind_old@ + msg_old@ + origin_text(o, borrowck_mir));
    report(span, "E0502", &m)
}

/// E0506: a borrowed value is assigned to; labels the borrow and the assignment.
pub fn cannot_assign_to_borrowed(span: Span, borrow_span: Span, desc: &str, o: Origin, borrowck_mir: Option<bool>) -> (r: Diagnostic)
    ensures
        r.span == span,
        r.code@ == "E0506"@,
        r.message@ == "cannot assign to `"@ + desc@ + "` because it is borrowed"@ + origin_text(o, borrowck_mir),
        labels_view(r.labels@) == seq![
            (borrow_span, "borrow of `"@ + desc@ + "` occurs here"@),
            (span, "assignment to borrowed `"@ + desc@ + "` occurs here"@),
        ],
{
    let mut m: Vec<char> = Vec::new();
    push_text(&mut m, "cannot assign to `");
    push_text(&mut m, desc);
    push_text(&mut m, "` because it is borrowed");
    push_text(&mut m, o.suffix(borrowck_mir));
    assert(m@ =~= "cannot assign to `"@ + desc@ + "` because it is borrowed"@ + origin_text(o, borrowck_mir));
    let mut err = report(span, "E0506", &m);
    let mut l0: Vec<char> = Vec::new();
    push_text(&mut l0, "borrow of `");
    push_text(&mut l0, desc);
    push_text(&mut l0, "` occurs here");
    assert(l0@ =~= "borrow of `"@ + desc@ + "` occurs here"@);
    add_label(&mut err, borrow_span, &l0);
    let mut l1: Vec<char> = Vec::new();
    push_text(&mut l1, "assignment to borrowed `");
    push_text(&mut l1, desc);
    push_text(&mut l1, "` occurs here");
    assert(l1@ =~= "assignment to borrowed `"@ + desc@ + "` occurs here"@);
    add_label(&mut err, span, &l1);
    assert(labels_view(err.labels@) =~= seq![
        (borrow_span, "borrow of `"@ + desc@ + "` occurs here"@),
        (span, "assignment to borrowed `"@ + desc@ + "` occurs here"@),
    ]);
    err
}

/// E0504: a borrowed value is moved into a closure.
pub fn cannot_move_into_closure(span: Span, desc: &str, o: Origin, borrowck_mir: Option<bool>) -> (r: Diagnostic)
    ensures
        r.span == span,
        r.code@ == "E0504"@,
        r.message@ == "cannot move `"@ + desc@ + "` into closure because it is borrowed"@ + origin_text(o, borrowck_mir),
        r.labels@.len() == 0,
{
    let mut m: Vec<char> = Vec::new();
    push_text(&mut m, "cannot move `");
    push_text(&mut m, desc);
    push_text(&mut m, "` into closure because it is borrowed");
    push_text(&mut m, o.suffix(borrowck_mir));
    assert(m@ =~= "cannot move `"@ + desc@ + "` into closure because it is borrowed"@ + origin_text(o, borrowck_mir));
    report(span, "E0504", &m)
}

/// E0384: an immutable variable is assigned twice.
pub fn cannot_reassign_immutable(span: Span, desc: &str, o: Origin, borrowck_mir: Option<bool>) -> (r: Diagnostic)
    ensures
        r.span == span,
        r.code@ == "E0384"@,
        r.message@ == "re-assignment of immutable variable `"@ + desc@ + "`"@ + origin_text(o, borrowck_mir),
        r.labels@.len() == 0,
{
    let mut m: Vec<char> = Vec::new();
    push_text(&mut m, "re-assignment of immutable variable `");
    push_text(&mut m, desc);
    push_text(&mut m, "`");
    push_text(&mut m, o.suffix(borrowck_mir));
    assert(m@ =~= "re-assignment of immutable variable `"@ + desc@ + "`"@ + origin_text(o, borrowck_mir));
    report(span, "E0384", &m)
}

/// E0594: something that cannot be assigned to is assigned to.
pub fn cannot_assign(span: Span, desc: &str, o: Origin, borrowck_mir: Option<bool>) -> (r: Diagnostic)
    ensures
        r.span == span,
        r.code@ == "E0594"@,
        r.message@ == "cannot assign to "@ + desc@ + origin_text(o, borrowck_mir),
        r.labels@.len() == 0,
{
    let mut m: Vec<char> = Vec::new();
    push_text(&mut m, "cannot assign to ");
    push_text(&mut m, desc);
    push_text(&mut m, o.suffix(borrowck_mir));
    assert(m@ =~= "cannot assign to "@ + desc@ + origin_text(o, borrowck_mir));
    report(span, "E0594", &m)
}

/// E0507: a value is moved out of a place it cannot leave; labels that place.
pub fn cannot_move_out_of(move_from_span: Span, move_from_desc: &str, o: Origin, borrowck_mir: Option<bool>) -> (r: Diagnostic)
    ensures
        r.span == move_from_span,
        r.code@ == "E0507"@,
        r.message@ == "cannot move out of "@ + move_from_desc@ + origin_text(o, borrowck_mir),
        labels_view(r.labels@) == seq![
            (move_from_span, "cannot move out of "@ + move_from_desc@),
        ],
{
    let mut m: Vec<char> = Vec::new();
    push_text(&mut m, "cannot move out of ");
    push_text(&mut m, move_from_desc);
    push_text(&mut m, o.suffix(borrowck_mir));
    assert(m@ =~= "cannot move out of "@ + move_from_desc@ + origin_text(o, borrowck_mir));
    let mut err = report(move_from_span, "E0507", &m);
    let mut l0: Vec<char> = Vec::new();
    push_text(&mut l0, "cannot move out of ");
    push_text(&mut l0, move_from_desc);
    assert(l0@ =~= "cannot move out of "@ + move_from_desc@);
    add_label(&mut err, move_from_span, &l0);
    assert(labels_view(err.labels@) =~= seq![
        (move_from_span, "cannot move out of "@ + move_from_desc@),
    ]);
    err
}

/// E0509: a value is moved out of a type with a destructor; `container_ty` is the type as printed.
pub fn cannot_move_out_of_interior_of_drop(move_from_span: Span, container_ty: &str, o: Origin, borrowck_mir: Option<bool>) -> (r: Diagnostic)
    ensures
        r.span == move_from_span,
        r.code@ == "E0509"@,
        r.message@ == "cannot move out of type `"@ + container_ty@ + "`, which implements the `Drop` trait"@ + origin_text(o, borrowck_mir),
        labels_view(r.labels@) == seq![
            (move_from_span, "cannot move out of here"@),
        ],
{
    let mut m: Vec<char> = Vec::new();
    push_text(&mut m, "cannot move out of type `");
    push_text(&mut m, container_ty);
    push_text(&mut m, "`, which implements the `Drop` trait");
    push_text(&mut m, o.suffix(borrowck_mir));
    assert(m@ =~= "cannot move out of type `"@ + container_ty@ + "`, which implements the `Drop` trait"@ + origin_text(o, borrowck_mir));
    let mut err = report(move_from_span, "E0509", &m);
    let mut l0: Vec<char> = Vec::new();
    push_text(&mut l0, "cannot move out of here");
    assert(l0@ =~= "cannot move out of here"@);
    add_label(&mut err, move_from_span, &l0);
    assert(labels_view(err.labels@) =~= seq![
        (move_from_span, "cannot move out of here"@),
    ]);
    err
}

/// E0594 for an immutable static item.
pub fn cannot_assign_static(span: Span, desc: &str, o: Origin, borrowck_mir: Option<bool>) -> (r: Diagnostic)
    ensures
        r.span == span,
        r.code@ == "E0594"@,
        r.message@ == "cannot assign to "@ + "immutable static item `"@ + desc@ + "`"@ + origin_text(o, borrowck_mir),
        r.labels@.len() == 0,
{
    let mut d: Vec<char> = Vec::new();
    push_text(&mut d, "immutable static item `");
    push_text(&mut d, desc);
    push_text(&mut d, "`");
    let item = crate::strings::string_of(&d);
    let r = cannot_assign(span, item.as_str(), o, borrowck_mir);
    assert(r.message@ =~= "cannot assign to "@ + "immutable static item `"@ + desc@ + "`"@ + origin_text(o, borrowck_mir));
    r
}

/// E0508: a value is moved out of an array (by index) or a slice;
/// `ty` is the type as printed, `ty_kind` its kind. Labels the place.
pub fn cannot_move_out_of_interior_noncopy(
    move_from_span: Span,
    ty: &str,
    ty_kind: &TyKind,
    is_index: bool,
    o: Origin,
    borrowck_mir: Option<bool>,
) -> (r: Diagnostic)
    requires
        (*ty_kind is Array && is_index) || *ty_kind is Slice,
    ensures
        r.span == move_from_span,
        r.code@ == "E0508"@,
        r.message@ == "cannot move out of type `"@ + ty@ + "`, a non-copy "@ + (if *ty_kind is Array && is_index {
            "array"@
        } else {
            "slice"@
        }) + origin_text(o, borrowck_mir),
        labels_view(r.labels@) == seq![(move_from_span, "cannot move out of here"@)],
{
    let kind_name = match (ty_kind, is_index) {
        (TyKind::Array, true) => "array",
        _ => "slice",
    };
    let mut m: Vec<char> = Vec::new();
    push_text(&mut m, "cannot move out of type `");
    push_text(&mut m, ty);
    push_text(&mut m, "`, a non-copy ");
    push_text(&mut m, kind_name);
    push_text(&mut m, o.suffix(borrowck_mir));
    let mut err = report(move_from_span, "E0508", &m);
    let mut l: Vec<char> = Vec::new();
    push_text(&mut l, "cannot move out of here");
    add_label(&mut err, move_from_span, &l);
    assert(labels_view(err.labels@) =~= seq![(move_from_span, "cannot move out of here"@)]);
    err
}

} // verus!
