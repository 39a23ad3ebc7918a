//! The record binder: maps a parsed document onto named fields driven by
//! a schema, and serializes a record back to text in schema order.
//!
//! Decoding processes all optional fields first, then all required
//! fields, each phase in schema order, and stops at the first failure:
//! a missing required key is reported as such rather than being masked
//! by an earlier partial failure. Keys the schema does not name are
//! ignored. Encoding emits one `name = value` line per field that has a
//! value, in schema order, and omits optional fields without one.

use vstd::pervasive::unreached;
use vstd::prelude::*;
use vstd::string::StringExecFns;

use crate::document::{
    canonical_options, doc_spec, lookup_spec, remove_key_spec, Document, PairModel,
};
use crate::value::{
    kind_of, parse_spec, render_spec, ErrorModel, IniError, IniKind, IniValue, ValueModel,
};

verus! {

/// The typed-value kind a field accepts.
#[derive(Clone, Copy, Debug, PartialEq, Eq, Structural)]
pub enum FieldKind {
    /// A boolean literal.
    Bool,
    /// A non-negative whole number.
    PosInt,
    /// A negative whole number.
    NegInt,
    /// A finite, non-integral decimal number.
    Float,
    /// A string.
    Str,
    /// The raw value text, handed through undecoded; for fields whose
    /// type decodes itself, such as a nested record.
    Raw,
}

/// The description of one field: its key, whether it must be present,
/// and the kind it decodes to.
pub struct FieldSpec {
    /// The key the field binds to.
    pub name: String,
    /// Whether the field must be present with a value.
    pub required: bool,
    /// The kind the raw value must decode to.
    pub kind: FieldKind,
}

/// The mathematical model of a [`FieldSpec`].
pub struct FieldModel {
    /// Model of the key.
    pub name: Seq<char>,
    /// Model of the required flag.
    pub required: bool,
    /// Model of the kind.
    pub kind: FieldKind,
}

impl View for FieldSpec {
    type V = FieldModel;

    open spec fn view(&self) -> FieldModel {
        FieldModel { name: self.name@, required: self.required, kind: self.kind }
    }
}

impl DeepView for FieldSpec {
    type V = FieldModel;

    open spec fn deep_view(&self) -> FieldModel {
        self.view()
    }
}

/// An ordered sequence of field descriptions. Order is significant only
/// for serialization output order, never for decoding correctness.
pub type Schema = Vec<FieldSpec>;

/// Does a scalar of kind `k` satisfy a field of kind `fk`?
pub open spec fn kind_matches(fk: FieldKind, k: IniKind) -> bool {
    match fk {
        FieldKind::Bool => k == IniKind::Bool,
        FieldKind::PosInt => k == IniKind::PosInt,
        FieldKind::NegInt => k == IniKind::NegInt,
        FieldKind::Float => k == IniKind::Float,
        FieldKind::Str => k == IniKind::Str,
        FieldKind::Raw => true,
    }
}

/// What decoding one raw value against a field kind yields: the raw text
/// itself for [`FieldKind::Raw`], otherwise the parsed scalar when its
/// kind matches, and nothing on a parse failure or a kind mismatch.
pub open spec fn raw_decode_spec(raw: Seq<char>, kind: FieldKind) -> Option<ValueModel> {
    if kind == FieldKind::Raw {
        Some(ValueModel::Str(raw))
    } else {
        match parse_spec(raw) {
            Err(_) => None,
            Ok(v) => if kind_matches(kind, kind_of(v)) {
                Some(v)
            } else {
                None
            },
        }
    }
}

/// The optional-field phase: walks the schema from `i`, resolving each
/// optional field against the document, consuming the keys it decodes,
/// and stopping at the first failure.
pub open spec fn opt_phase(
    doc: Seq<PairModel>,
    fields: Seq<FieldModel>,
    rec: Seq<Option<ValueModel>>,
    i: int,
) -> Result<(Seq<PairModel>, Seq<Option<ValueModel>>), ErrorModel>
    decreases fields.len() - i,
{
    if i < 0 || i >= fields.len() {
        Ok((doc, rec))
    } else {
        let f = fields[i];
        if f.required {
            opt_phase(doc, fields, rec, i + 1)
        } else {
            match lookup_spec(doc, f.name) {
                None => opt_phase(doc, fields, rec, i + 1),
                Some(p) => {
                    if !p.present {
                        opt_phase(doc, fields, rec, i + 1)
                    } else {
                        match raw_decode_spec(p.value, f.kind) {
                            None => Err(ErrorModel::InvalidFieldValue(f.name, p.value)),
                            Some(v) => opt_phase(
                                remove_key_spec(doc, f.name),
                                fields,
                                rec.update(i, Some(v)),
                                i + 1,
                            ),
                        }
                    }
                },
            }
        }
    }
}

/// The required-field phase: walks the schema from `i`, resolving each
/// required field, reporting the first key that is absent or carries no
/// value, or whose value does not decode.
pub open spec fn req_phase(
    doc: Seq<PairModel>,
    fields: Seq<FieldModel>,
    rec: Seq<Option<ValueModel>>,
    i: int,
) -> Result<(Seq<PairModel>, Seq<Option<ValueModel>>), ErrorModel>
    decreases fields.len() - i,
{
    if i < 0 || i >= fields.len() {
        Ok((doc, rec))
    } else {
        let f = fields[i];
        if !f.required {
            req_phase(doc, fields, rec, i + 1)
        } else {
            match lookup_spec(doc, f.name) {
                None => Err(ErrorModel::MissingRequiredField(f.name)),
                Some(p) => {
                    if !p.present {
                        Err(ErrorModel::MissingRequiredField(f.name))
                    } else {
                        match raw_decode_spec(p.value, f.kind) {
                            None => Err(ErrorModel::InvalidFieldValue(f.name, p.value)),
                            Some(v) => req_phase(
                                remove_key_spec(doc, f.name),
                                fields,
                                rec.update(i, Some(v)),
                                i + 1,
                            ),
                        }
                    }
                },
            }
        }
    }
}

/// What decoding a text against a schema yields: the document under the
/// canonical configuration, the optional phase, then the required phase;
/// on success one decoded value per field, in schema order, absent
/// optional fields left without one.
pub open spec fn decode_spec(text: Seq<char>, schema: Seq<FieldModel>) -> Result<
    Seq<Option<ValueModel>>,
    ErrorModel,
> {
    let doc = doc_spec(text, canonical_options());
    let blank = Seq::new(schema.len(), |k: int| None::<ValueModel>);
    match opt_phase(doc, schema, blank, 0) {
        Err(e) => Err(e),
        Ok((doc2, rec)) => match req_phase(doc2, schema, rec, 0) {
            Err(e) => Err(e),
            Ok((_, rec2)) => Ok(rec2),
        },
    }
}

/// The model of a decode result.
pub open spec fn decode_result_model(r: Result<Vec<Option<IniValue>>, IniError>) -> Result<
    Seq<Option<ValueModel>>,
    ErrorModel,
> {
    match r {
        Ok(v) => Ok(v.deep_view()),
        Err(e) => Err(e@),
    }
}

/// Decodes one raw value against a field kind, as [`raw_decode_spec`]
/// says.
fn decode_raw(raw: &str, kind: FieldKind) -> (r: Option<IniValue>)
    ensures
        match r {
            Some(v) => raw_decode_spec(raw@, kind) == Some(v@),
            None => raw_decode_spec(raw@, kind) is None,
        },
{
    if kind == FieldKind::Raw {
        return Some(IniValue::Str(String::from_str(raw)));
    }
    match IniValue::from_str(raw) {
        Err(_) => None,
        Ok(v) => {
            let k = v.kind();
            let ok = match kind {
                FieldKind::Bool => k == IniKind::Bool,
                FieldKind::PosInt => k == IniKind::PosInt,
                FieldKind::NegInt => k == IniKind::NegInt,
                FieldKind::Float => k == IniKind::Float,
                FieldKind::Str => k == IniKind::Str,
                FieldKind::Raw => true,
            };
            if ok {
                Some(v)
            } else {
                None
            }
        },
    }
}

/// Decodes a text against a schema, as [`decode_spec`] says: on success,
/// one decoded value per field in schema order, with `None` for an
/// optional field that was absent; on failure, the first error, optional
/// fields resolved before required ones.
pub fn decode(text: &str, schema: &Schema) -> (r: Result<Vec<Option<IniValue>>, IniError>)
    ensures
        decode_result_model(r) == decode_spec(text@, schema.deep_view()),
{
    let ghost sm = schema.deep_view();
    let mut doc = Document::parse(text);
    let ghost doc0 = doc@;
    let n = schema.len();
    let mut rec: Vec<Option<IniValue>> = Vec::new();
    let mut i: usize = 0;
    while i < n
        invariant
            0 <= i <= n,
            rec@.len() == i,
            forall|j: int| 0 <= j < i ==> rec.deep_view()[j] is None,
        decreases n - i,
    {
        let ghost before = rec.deep_view();
        rec.push(None);
        proof {
            assert(rec.deep_view() =~= before.push(None::<ValueModel>));
        }
        i = i + 1;
    }
    let ghost blank = Seq::new(sm.len(), |k: int| None::<ValueModel>);
    proof {
        assert(rec.deep_view() =~= blank);
    }
    let mut i: usize = 0;
    while i < n
        invariant
            0 <= i <= n,
            n == schema@.len(),
            sm == schema.deep_view(),
            rec@.len() == n,
            blank == Seq::new(sm.len(), |k: int| None::<ValueModel>),
            doc0 == doc_spec(text@, canonical_options()),
            opt_phase(doc0, sm, blank, 0) == opt_phase(doc@, sm, rec.deep_view(), i as int),
        decreases n - i,
    {
        let ghost pre_doc = doc@;
        let ghost pre_rec = rec.deep_view();
        let f = &schema[i];
        proof {
            assert(sm[i as int] == f@);
        }
        if !f.required {
            let wanted = match doc.get(f.name.as_str()) {
                None => false,
                Some(p) => p.present,
            };
            if wanted {
                let p = match doc.take(f.name.as_str()) {
                    Some(p) => p,
                    None => unreached(),
                };
                match decode_raw(p.value.as_str(), f.kind) {
                    Some(v) => {
                        let ghost vm = v@;
                        rec.remove(i);
                        rec.insert(i, Some(v));
                        proof {
                            assert(rec.deep_view() =~= pre_rec.update(i as int, Some(vm)));
                            assert(opt_phase(pre_doc, sm, pre_rec, i as int) == opt_phase(
                                doc@,
                                sm,
                                rec.deep_view(),
                                i + 1,
                            ));
                        }
                    },
                    None => {
                        return Err(IniError::InvalidFieldValue(f.name.clone(), p.value));
                    },
                }
            }
        }
        i = i + 1;
    }
    let ghost dopt = doc@;
    let ghost ropt = rec.deep_view();
    proof {
        assert(opt_phase(doc0, sm, blank, 0) == Ok::<_, ErrorModel>((dopt, ropt)));
    }
    let mut i: usize = 0;
    while i < n
        invariant
            0 <= i <= n,
            n == schema@.len(),
            sm == schema.deep_view(),
            rec@.len() == n,
            blank == Seq::new(sm.len(), |k: int| None::<ValueModel>),
            doc0 == doc_spec(text@, canonical_options()),
            opt_phase(doc0, sm, blank, 0) == Ok::<_, ErrorModel>((dopt, ropt)),
            req_phase(dopt, sm, ropt, 0) == req_phase(doc@, sm, rec.deep_view(), i as int),
        decreases n - i,
    {
        let ghost pre_doc = doc@;
        let ghost pre_rec = rec.deep_view();
        let f = &schema[i];
        proof {
            assert(sm[i as int] == f@);
        }
        if f.required {
            match doc.take(f.name.as_str()) {
                None => {
                    return Err(IniError::MissingRequiredField(f.name.clone()));
                },
                Some(p) => {
                    if !p.present {
                        return Err(IniError::MissingRequiredField(f.name.clone()));
                    }
                    match decode_raw(p.value.as_str(), f.kind) {
                        None => {
                            return Err(IniError::InvalidFieldValue(f.name.clone(), p.value));
                        },
                        Some(v) => {
                            let ghost vm = v@;
                            rec.remove(i);
                            rec.insert(i, Some(v));
                            proof {
                                assert(rec.deep_view() =~= pre_rec.update(i as int, Some(vm)));
                                assert(req_phase(pre_doc, sm, pre_rec, i as int) == req_phase(
                                    doc@,
                                    sm,
                                    rec.deep_view(),
                                    i + 1,
                                ));
                            }
                        },
                    }
                },
            }
        }
        i = i + 1;
    }
    Ok(rec)
}

/// The line one bound field serializes to.
pub open spec fn encode_line_spec(f: FieldModel, v: ValueModel) -> Seq<char> {
    f.name + " = "@ + render_spec(v)
}

/// The lines the first `i` fields serialize to: one per field with a
/// value, in schema order.
pub open spec fn encode_lines_upto(
    schema: Seq<FieldModel>,
    rec: Seq<Option<ValueModel>>,
    i: int,
) -> Seq<Seq<char>>
    decreases i,
{
    if i <= 0 {
        Seq::empty()
    } else {
        let pre = encode_lines_upto(schema, rec, i - 1);
        match rec[i - 1] {
            None => pre,
            Some(v) => pre.push(encode_line_spec(schema[i - 1], v)),
        }
    }
}

/// Lines joined by single separators: no leading or trailing separator.
pub open spec fn join_lines_spec(lines: Seq<Seq<char>>) -> Seq<char>
    decreases lines.len(),
{
    if lines.len() == 0 {
        Seq::empty()
    } else if lines.len() == 1 {
        lines[0]
    } else {
        join_lines_spec(lines.drop_last()) + seq!['\n'] + lines.last()
    }
}

/// What encoding a record against a schema yields.
pub open spec fn encode_spec(schema: Seq<FieldModel>, rec: Seq<Option<ValueModel>>) -> Seq<char> {
    join_lines_spec(encode_lines_upto(schema, rec, schema.len() as int))
}

/// Serializes a record against a schema, as [`encode_spec`] says: one
/// `name = value` line per field holding a value, in schema order,
/// joined by single line separators; a field without a value emits
/// nothing.
pub fn encode(record: &Vec<Option<IniValue>>, schema: &Schema) -> (r: String)
    requires
        record@.len() == schema@.len(),
    ensures
        r@ == encode_spec(schema.deep_view(), record.deep_view()),
{
    let ghost sm = schema.deep_view();
    let ghost rm = record.deep_view();
    let n = schema.len();
    let mut out = String::new();
    let mut some_line = false;
    let mut i: usize = 0;
    while i < n
        invariant
            0 <= i <= n,
            n == schema@.len(),
            n == record@.len(),
            sm == schema.deep_view(),
            rm == record.deep_view(),
            some_line == (encode_lines_upto(sm, rm, i as int).len() > 0),
            out@ == join_lines_spec(encode_lines_upto(sm, rm, i as int)),
        decreases n - i,
    {
        proof {
            assert(sm[i as int] == schema@[i as int]@);
            assert(rm[i as int] == record@[i as int].deep_view());
        }
        match &record[i] {
            None => {},
            Some(v) => {
                if some_line {
                    out.append("\n");
                }
                out.append(schema[i].name.as_str());
                out.append(" = ");
                let rendered = v.render();
                out.append(rendered.as_str());
                proof {
                    reveal_strlit("\n");
                    reveal_strlit(" = ");
                    let pre = encode_lines_upto(sm, rm, i as int);
                    let cur = encode_lines_upto(sm, rm, i + 1);
                    assert(cur == pre.push(encode_line_spec(sm[i as int], v@)));
                    if pre.len() > 0 {
                        assert(cur.drop_last() =~= pre);
                        assert(out@ =~= join_lines_spec(cur));
                    } else {
                        assert(cur.len() == 1);
                        assert(out@ =~= join_lines_spec(cur));
                    }
                }
                some_line = true;
            },
        }
        i = i + 1;
    }
    out
}

/// No pair of `doc` bearing `name` carries a value.
pub open spec fn no_present_key(doc: Seq<PairModel>, name: Seq<char>) -> bool {
    forall|j: int| 0 <= j < doc.len() ==> (#[trigger] doc[j]).key == name ==> !doc[j].present
}

/// Removing a key preserves [`no_present_key`] for every name.
proof fn lemma_remove_key_preserves(doc: Seq<PairModel>, k: Seq<char>, name: Seq<char>)
    requires
        no_present_key(doc, name),
    ensures
        no_present_key(remove_key_spec(doc, k), name),
{
    let d2 = remove_key_spec(doc, k);
    let i = crate::document::index_of_key(doc, k);
    if 0 <= i < doc.len() {
        assert forall|j: int| 0 <= j < d2.len() implies (#[trigger] d2[j]).key == name
            ==> !d2[j].present by {
            if j < i {
                assert(d2[j] == doc[j]);
            } else {
                assert(d2[j] == doc[j + 1]);
            }
        }
    } else {
        crate::document::lemma_index_of_key(doc, k);
    }
}

/// The optional phase only removes pairs, so it preserves
/// [`no_present_key`] for every name.
proof fn lemma_opt_phase_preserves(
    doc: Seq<PairModel>,
    fields: Seq<FieldModel>,
    rec: Seq<Option<ValueModel>>,
    i: int,
    name: Seq<char>,
)
    requires
        no_present_key(doc, name),
    ensures
        match opt_phase(doc, fields, rec, i) {
            Ok((d2, _)) => no_present_key(d2, name),
            Err(_) => true,
        },
    decreases fields.len() - i,
{
    if 0 <= i < fields.len() {
        let f = fields[i];
        if f.required {
            lemma_opt_phase_preserves(doc, fields, rec, i + 1, name);
        } else {
            match lookup_spec(doc, f.name) {
                None => {
                    lemma_opt_phase_preserves(doc, fields, rec, i + 1, name);
                },
                Some(p) => {
                    if !p.present {
                        lemma_opt_phase_preserves(doc, fields, rec, i + 1, name);
                    } else {
                        match raw_decode_spec(p.value, f.kind) {
                            None => {},
                            Some(v) => {
                                lemma_remove_key_preserves(doc, f.name, name);
                                lemma_opt_phase_preserves(
                                    remove_key_spec(doc, f.name),
                                    fields,
                                    rec.update(i, Some(v)),
                                    i + 1,
                                    name,
                                );
                            },
                        }
                    }
                },
            }
        }
    }
}

/// The required phase fails when some required field at or after `i`
/// has no pair carrying a value.
proof fn lemma_req_phase_err(
    doc: Seq<PairModel>,
    fields: Seq<FieldModel>,
    rec: Seq<Option<ValueModel>>,
    m: int,
    i: int,
)
    requires
        0 <= m <= i < fields.len(),
        fields[i].required,
        no_present_key(doc, fields[i].name),
    ensures
        req_phase(doc, fields, rec, m) is Err,
    decreases fields.len() - m,
{
    let f = fields[m];
    crate::document::lemma_index_of_key(doc, fields[i].name);
    if m == i {
        match lookup_spec(doc, f.name) {
            None => {},
            Some(p) => {
                crate::document::lemma_index_of_key(doc, f.name);
            },
        }
    } else {
        if !f.required {
            lemma_req_phase_err(doc, fields, rec, m + 1, i);
        } else {
            match lookup_spec(doc, f.name) {
                None => {},
                Some(p) => {
                    if p.present {
                        match raw_decode_spec(p.value, f.kind) {
                            None => {},
                            Some(v) => {
                                lemma_remove_key_preserves(doc, f.name, fields[i].name);
                                lemma_req_phase_err(
                                    remove_key_spec(doc, f.name),
                                    fields,
                                    rec.update(m, Some(v)),
                                    m + 1,
                                    i,
                                );
                            },
                        }
                    }
                },
            }
        }
    }
}

/// When a required field's key is nowhere present with a value in the
/// parsed document, decoding fails: no partially populated record is
/// returned.
pub proof fn lemma_missing_required_rejected(text: Seq<char>, schema: Seq<FieldModel>, i: int)
    requires
        0 <= i < schema.len(),
        schema[i].required,
        no_present_key(doc_spec(text, canonical_options()), schema[i].name),
    ensures
        decode_spec(text, schema) is Err,
{
    let doc = doc_spec(text, canonical_options());
    let blank = Seq::new(schema.len(), |k: int| None::<ValueModel>);
    lemma_opt_phase_preserves(doc, schema, blank, 0, schema[i].name);
    match opt_phase(doc, schema, blank, 0) {
        Err(_) => {},
        Ok((d2, r2)) => {
            lemma_req_phase_err(d2, schema, r2, 0, i);
        },
    }
}

} // verus!
