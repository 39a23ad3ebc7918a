//! The typed scalar value: classification of one raw text token into a
//! closed set of primitive kinds, and the inverse rendering.
//!
//! Classification first trims the token, then checks, in order: quoted
//! string, misquoted string, boolean literal, non-finite numeric literal
//! (rejected), numeric literal, and finally plain string.
//!
//! A numeric token is an optional sign, then decimal digits with at most
//! one decimal point and at least one digit (`42`, `-7.5`, `+.25`, `3.`).
//! A numeric token whose fractional digits are all zero is an integer and
//! its decimal magnitude is kept exactly; when the magnitude does not fit
//! the 64-bit range, or the fraction is non-zero, the token is kept
//! verbatim as a [`IniValue::Float`]. The literals `inf`, `infinity` and
//! `nan` (any casing, optionally signed) are rejected as
//! [`IniError::BadNumericFormat`] rather than classified.

use vstd::prelude::*;
use vstd::string::StrSliceExecFns;
use vstd::string::StringExecFns;

use crate::num::{
    all_digits, all_zeros, check_all_digits, check_all_zeros, dec_rep, dec_to_u64, dec_value,
    i64_to_dec, int_rep, is_digit_char, u64_to_dec,
};
use crate::text::{
    find_char, find_char_spec, is_space_char, lemma_find_char_spec, lemma_trim_end_keeps_first,
    lemma_trim_end_props, lemma_trim_noop, lemma_trim_start_keeps_last, lemma_trim_start_props,
    str_eq, trim_end_spec, trim_spec, trim_start_spec, trim_str,
};
use crate::{FromIni, ToIni};

verus! {

/// The kind of a [`IniValue`], used to report mismatches.
#[derive(Clone, Copy, Debug, PartialEq, Eq, Structural)]
pub enum IniKind {
    /// A boolean literal.
    Bool,
    /// A non-negative whole number.
    PosInt,
    /// A negative whole number.
    NegInt,
    /// A finite, non-integral decimal number.
    Float,
    /// A plain or quoted string.
    Str,
}

/// A typed scalar parsed from one raw text token.
#[derive(Debug, Clone)]
pub enum IniValue {
    /// The literal `true` or `false`.
    Bool(bool),
    /// A non-negative whole number, kept as its exact magnitude.
    PosInt(u64),
    /// A negative whole number.
    NegInt(i64),
    /// A finite, non-integral decimal number, kept as its literal text.
    Float(String),
    /// A string; for a quoted token, the interior without the quotes.
    Str(String),
}

/// The mathematical model of a [`IniValue`].
pub enum ValueModel {
    /// Model of [`IniValue::Bool`].
    Bool(bool),
    /// Model of [`IniValue::PosInt`].
    PosInt(u64),
    /// Model of [`IniValue::NegInt`].
    NegInt(i64),
    /// Model of [`IniValue::Float`].
    Float(Seq<char>),
    /// Model of [`IniValue::Str`].
    Str(Seq<char>),
}

impl View for IniValue {
    type V = ValueModel;

    open spec fn view(&self) -> ValueModel {
        match self {
            IniValue::Bool(b) => ValueModel::Bool(*b),
            IniValue::PosInt(n) => ValueModel::PosInt(*n),
            IniValue::NegInt(n) => ValueModel::NegInt(*n),
            IniValue::Float(s) => ValueModel::Float(s@),
            IniValue::Str(s) => ValueModel::Str(s@),
        }
    }
}

impl DeepView for IniValue {
    type V = ValueModel;

    open spec fn deep_view(&self) -> ValueModel {
        self.view()
    }
}

impl PartialEq for IniValue {
    fn eq(&self, other: &IniValue) -> bool {
        match (self, other) {
            (IniValue::Bool(a), IniValue::Bool(b)) => *a == *b,
            (IniValue::PosInt(a), IniValue::PosInt(b)) => *a == *b,
            (IniValue::NegInt(a), IniValue::NegInt(b)) => *a == *b,
            (IniValue::Float(a), IniValue::Float(b)) => str_eq(a.as_str(), b.as_str()),
            (IniValue::Str(a), IniValue::Str(b)) => str_eq(a.as_str(), b.as_str()),
            _ => false,
        }
    }
}

impl vstd::std_specs::cmp::PartialEqSpecImpl for IniValue {
    open spec fn obeys_eq_spec() -> bool {
        true
    }

    open spec fn eq_spec(&self, other: &IniValue) -> bool {
        match (self, other) {
            (IniValue::Bool(a), IniValue::Bool(b)) => a == b,
            (IniValue::PosInt(a), IniValue::PosInt(b)) => a == b,
            (IniValue::NegInt(a), IniValue::NegInt(b)) => a == b,
            (IniValue::Float(a), IniValue::Float(b)) => a@ == b@,
            (IniValue::Str(a), IniValue::Str(b)) => a@ == b@,
            _ => false,
        }
    }
}

/// A failure reported by the value parser or the record binder.
#[derive(Debug, Clone)]
pub enum IniError {
    /// A token with a quote character on one side only.
    MisquotedString(String),
    /// A numeric literal denoting a NaN or an infinity.
    BadNumericFormat(String),
    /// A scalar's value was requested as the wrong typed-value kind:
    /// expected, then actual.
    WrongVariant(IniKind, IniKind),
    /// A required field's key was absent, or present with no value.
    MissingRequiredField(String),
    /// A field's raw value could not be decoded: field name, then raw
    /// value.
    InvalidFieldValue(String, String),
}

/// The mathematical model of an [`IniError`].
pub enum ErrorModel {
    /// Model of [`IniError::MisquotedString`].
    MisquotedString(Seq<char>),
    /// Model of [`IniError::BadNumericFormat`].
    BadNumericFormat(Seq<char>),
    /// Model of [`IniError::WrongVariant`].
    WrongVariant(IniKind, IniKind),
    /// Model of [`IniError::MissingRequiredField`].
    MissingRequiredField(Seq<char>),
    /// Model of [`IniError::InvalidFieldValue`].
    InvalidFieldValue(Seq<char>, Seq<char>),
}

impl View for IniError {
    type V = ErrorModel;

    open spec fn view(&self) -> ErrorModel {
        match self {
            IniError::MisquotedString(s) => ErrorModel::MisquotedString(s@),
            IniError::BadNumericFormat(s) => ErrorModel::BadNumericFormat(s@),
            IniError::WrongVariant(e, a) => ErrorModel::WrongVariant(*e, *a),
            IniError::MissingRequiredField(s) => ErrorModel::MissingRequiredField(s@),
            IniError::InvalidFieldValue(n, v) => ErrorModel::InvalidFieldValue(n@, v@),
        }
    }
}

impl PartialEq for IniError {
    fn eq(&self, other: &IniError) -> bool {
        match (self, other) {
            (IniError::MisquotedString(a), IniError::MisquotedString(b)) => str_eq(
                a.as_str(),
                b.as_str(),
            ),
            (IniError::BadNumericFormat(a), IniError::BadNumericFormat(b)) => str_eq(
                a.as_str(),
                b.as_str(),
            ),
            (IniError::WrongVariant(e1, a1), IniError::WrongVariant(e2, a2)) => *e1 == *e2 && *a1
                == *a2,
            (IniError::MissingRequiredField(a), IniError::MissingRequiredField(b)) => str_eq(
                a.as_str(),
                b.as_str(),
            ),
            (IniError::InvalidFieldValue(n1, v1), IniError::InvalidFieldValue(n2, v2)) => str_eq(
                n1.as_str(),
                n2.as_str(),
            ) && str_eq(v1.as_str(), v2.as_str()),
            _ => false,
        }
    }
}

impl vstd::std_specs::cmp::PartialEqSpecImpl for IniError {
    open spec fn obeys_eq_spec() -> bool {
        true
    }

    open spec fn eq_spec(&self, other: &IniError) -> bool {
        match (self, other) {
            (IniError::MisquotedString(a), IniError::MisquotedString(b)) => a@ == b@,
            (IniError::BadNumericFormat(a), IniError::BadNumericFormat(b)) => a@ == b@,
            (IniError::WrongVariant(e1, a1), IniError::WrongVariant(e2, a2)) => e1 == e2 && a1
                == a2,
            (IniError::MissingRequiredField(a), IniError::MissingRequiredField(b)) => a@ == b@,
            (IniError::InvalidFieldValue(n1, v1), IniError::InvalidFieldValue(n2, v2)) => n1@ == n2@
                && v1@ == v2@,
            _ => false,
        }
    }
}

/// The kind of a scalar model.
pub open spec fn kind_of(v: ValueModel) -> IniKind {
    match v {
        ValueModel::Bool(_) => IniKind::Bool,
        ValueModel::PosInt(_) => IniKind::PosInt,
        ValueModel::NegInt(_) => IniKind::NegInt,
        ValueModel::Float(_) => IniKind::Float,
        ValueModel::Str(_) => IniKind::Str,
    }
}

/// A quote character: double or single quote.
pub open spec fn is_quote_char(c: char) -> bool {
    c == '"' || c == '\''
}

/// A token wrapped in one matching pair of quote characters.
pub open spec fn is_quoted(t: Seq<char>) -> bool {
    t.len() >= 2 && is_quote_char(t[0]) && t.last() == t[0]
}

/// A token with a quote character on one side but no matching pair.
pub open spec fn is_misquoted(t: Seq<char>) -> bool {
    !is_quoted(t) && t.len() > 0 && (is_quote_char(t[0]) || is_quote_char(t.last()))
}

/// Does the token begin with an explicit sign?
pub open spec fn has_sign(t: Seq<char>) -> bool {
    t.len() > 0 && (t[0] == '+' || t[0] == '-')
}

/// Does the token denote a negative number when numeric?
pub open spec fn is_neg_token(t: Seq<char>) -> bool {
    t.len() > 0 && t[0] == '-'
}

/// The token without its sign.
pub open spec fn num_body(t: Seq<char>) -> Seq<char> {
    if has_sign(t) {
        t.drop_first()
    } else {
        t
    }
}

/// The digits before the first decimal point, or the whole body when
/// there is none.
pub open spec fn int_part(b: Seq<char>) -> Seq<char> {
    let i = find_char_spec(b, '.');
    if i < 0 {
        b
    } else {
        b.subrange(0, i)
    }
}

/// The characters after the first decimal point, or empty when there is
/// none.
pub open spec fn frac_part(b: Seq<char>) -> Seq<char> {
    let i = find_char_spec(b, '.');
    if i < 0 {
        Seq::empty()
    } else {
        b.subrange(i + 1, b.len() as int)
    }
}

/// Does `c` read as the lower-case letter `l`, ignoring ASCII case?
pub open spec fn is_lower_match(c: char, l: char) -> bool {
    c == l || (97 <= l as int <= 122 && c as int + 32 == l as int)
}

/// Does `s` equal `lit` up to ASCII case, where `lit` is lower-case?
pub open spec fn eq_ignore_case_spec(s: Seq<char>, lit: Seq<char>) -> bool {
    s.len() == lit.len() && forall|k: int| 0 <= k < s.len() ==> is_lower_match(s[k], lit[k])
}

/// A literal denoting a NaN or an infinity, in any ASCII casing, with an
/// optional sign.
pub open spec fn is_nonfinite_token(t: Seq<char>) -> bool {
    ||| eq_ignore_case_spec(num_body(t), "inf"@)
    ||| eq_ignore_case_spec(num_body(t), "infinity"@)
    ||| eq_ignore_case_spec(num_body(t), "nan"@)
}

/// A token that reads as a decimal number: an optional sign, digits with
/// at most one decimal point, and at least one digit.
pub open spec fn is_numeric_token(t: Seq<char>) -> bool {
    let b = num_body(t);
    &&& all_digits(int_part(b))
    &&& all_digits(frac_part(b))
    &&& find_char_spec(frac_part(b), '.') == -1
    &&& int_part(b).len() + frac_part(b).len() > 0
}

/// The classification of a numeric token: integral tokens with a
/// 64-bit magnitude become integers; everything else keeps its text.
pub open spec fn numeric_value(t: Seq<char>) -> ValueModel {
    let b = num_body(t);
    if !all_zeros(frac_part(b)) {
        ValueModel::Float(t)
    } else {
        let m = dec_value(int_part(b));
        if is_neg_token(t) && m > 0 {
            if m <= 0x8000_0000_0000_0000 {
                ValueModel::NegInt((-(m as int)) as i64)
            } else {
                ValueModel::Float(t)
            }
        } else {
            if m <= u64::MAX {
                ValueModel::PosInt(m as u64)
            } else {
                ValueModel::Float(t)
            }
        }
    }
}

/// The classification of an already-trimmed token.
pub open spec fn parse_trimmed(t: Seq<char>) -> Result<ValueModel, ErrorModel> {
    if is_quoted(t) {
        Ok(ValueModel::Str(t.subrange(1, t.len() - 1)))
    } else if is_misquoted(t) {
        Err(ErrorModel::MisquotedString(t))
    } else if t == "true"@ {
        Ok(ValueModel::Bool(true))
    } else if t == "false"@ {
        Ok(ValueModel::Bool(false))
    } else if is_nonfinite_token(t) {
        Err(ErrorModel::BadNumericFormat(t))
    } else if is_numeric_token(t) {
        Ok(numeric_value(t))
    } else {
        Ok(ValueModel::Str(t))
    }
}

/// What parsing a raw token yields: the token is trimmed, then
/// classified.
pub open spec fn parse_spec(raw: Seq<char>) -> Result<ValueModel, ErrorModel> {
    parse_trimmed(trim_spec(raw))
}

/// The model of a parse result.
pub open spec fn parse_result_model(r: Result<IniValue, IniError>) -> Result<
    ValueModel,
    ErrorModel,
> {
    match r {
        Ok(v) => Ok(v@),
        Err(e) => Err(e@),
    }
}

/// The canonical text of a scalar: booleans and integers in their
/// canonical decimal form, floats and strings verbatim, without quoting.
pub open spec fn render_spec(v: ValueModel) -> Seq<char> {
    match v {
        ValueModel::Bool(b) => if b {
            "true"@
        } else {
            "false"@
        },
        ValueModel::PosInt(n) => dec_rep(n as nat),
        ValueModel::NegInt(n) => int_rep(n as int),
        ValueModel::Float(s) => s,
        ValueModel::Str(s) => s,
    }
}

/// Is `c` a quote character?
fn is_quote(c: char) -> (r: bool)
    ensures
        r == is_quote_char(c),
{
    c == '"' || c == '\''
}

/// Compares `s` to the lower-case literal `lit`, ignoring ASCII case in
/// `s`.
fn eq_ignore_case_str(s: &str, lit: &str) -> (r: bool)
    ensures
        r == eq_ignore_case_spec(s@, lit@),
{
    let n = s.unicode_len();
    if n != lit.unicode_len() {
        return false;
    }
    let mut i: usize = 0;
    while i < n
        invariant
            0 <= i <= n,
            n == s@.len(),
            n == lit@.len(),
            forall|k: int| 0 <= k < i ==> is_lower_match(s@[k], lit@[k]),
        decreases n - i,
    {
        let c = s.get_char(i);
        let l = lit.get_char(i);
        let m = c == l || (l >= 'a' && l <= 'z' && (c as u32) + 32 == l as u32);
        if !m {
            return false;
        }
        i = i + 1;
    }
    true
}

impl IniValue {
    /// The kind of this scalar.
    pub fn kind(&self) -> (r: IniKind)
        ensures
            r == kind_of(self@),
    {
        match self {
            IniValue::Bool(_) => IniKind::Bool,
            IniValue::PosInt(_) => IniKind::PosInt,
            IniValue::NegInt(_) => IniKind::NegInt,
            IniValue::Float(_) => IniKind::Float,
            IniValue::Str(_) => IniKind::Str,
        }
    }

    /// Parses one raw text token into a typed scalar.
    ///
    /// The token is trimmed, then classified as [`parse_spec`] says:
    /// quoted string, misquoted string (an error), exact boolean literal,
    /// non-finite numeric literal (an error), decimal number, or plain
    /// string.
    pub fn from_str(s: &str) -> (r: Result<IniValue, IniError>)
        ensures
            parse_result_model(r) == parse_spec(s@),
    {
        let t = trim_str(s);
        let n = t.unicode_len();
        if n >= 2 {
            let c0 = t.get_char(0);
            let cl = t.get_char(n - 1);
            if is_quote(c0) && cl == c0 {
                let interior = t.substring_char(1, n - 1);
                return Ok(IniValue::Str(String::from_str(interior)));
            }
        }
        if n > 0 {
            let c0 = t.get_char(0);
            let cl = t.get_char(n - 1);
            if is_quote(c0) || is_quote(cl) {
                return Err(IniError::MisquotedString(String::from_str(t)));
            }
        }
        if str_eq(t, "true") {
            return Ok(IniValue::Bool(true));
        }
        if str_eq(t, "false") {
            return Ok(IniValue::Bool(false));
        }
        let signed = n > 0 && (t.get_char(0) == '+' || t.get_char(0) == '-');
        let neg = n > 0 && t.get_char(0) == '-';
        let body = if signed {
            t.substring_char(1, n)
        } else {
            t
        };
        proof {
            assert(body@ =~= num_body(t@));
        }
        if eq_ignore_case_str(body, "inf") || eq_ignore_case_str(body, "infinity")
            || eq_ignore_case_str(body, "nan") {
            return Err(IniError::BadNumericFormat(String::from_str(t)));
        }
        let bn = body.unicode_len();
        let (int_str, frac_str) = match find_char(body, '.') {
            Some(di) => {
                proof {
                    crate::text::lemma_find_char_spec(body@, '.');
                }
                (body.substring_char(0, di), body.substring_char(di + 1, bn))
            },
            None => (body, body.substring_char(0, 0)),
        };
        proof {
            assert(int_str@ =~= int_part(body@));
            assert(frac_str@ =~= frac_part(body@));
        }
        let frac_no_dot = match find_char(frac_str, '.') {
            Some(_) => false,
            None => true,
        };
        let numeric = frac_no_dot && check_all_digits(int_str) && check_all_digits(frac_str) && (
        int_str.unicode_len() > 0 || frac_str.unicode_len() > 0);
        if !numeric {
            return Ok(IniValue::Str(String::from_str(t)));
        }
        if !check_all_zeros(frac_str) {
            return Ok(IniValue::Float(String::from_str(t)));
        }
        match dec_to_u64(int_str) {
            None => Ok(IniValue::Float(String::from_str(t))),
            Some(m) => {
                if neg && m > 0 {
                    if m <= 9223372036854775808u64 {
                        let v: i64 = if m == 9223372036854775808u64 {
                            i64::MIN
                        } else {
                            -(m as i64)
                        };
                        Ok(IniValue::NegInt(v))
                    } else {
                        Ok(IniValue::Float(String::from_str(t)))
                    }
                } else {
                    Ok(IniValue::PosInt(m))
                }
            },
        }
    }

    /// Renders the scalar as its canonical text, as [`render_spec`] says.
    /// Quoting is not re-applied to strings: parsing the result of
    /// rendering a quoted string yields the same value, not the same
    /// literal text.
    pub fn render(&self) -> (r: String)
        ensures
            r@ == render_spec(self@),
    {
        match self {
            IniValue::Bool(b) => {
                if *b {
                    String::from_str("true")
                } else {
                    String::from_str("false")
                }
            },
            IniValue::PosInt(n) => u64_to_dec(*n),
            IniValue::NegInt(n) => i64_to_dec(*n),
            IniValue::Float(s) => s.clone(),
            IniValue::Str(s) => s.clone(),
        }
    }

    /// The boolean carried by a [`IniValue::Bool`], or a
    /// [`IniError::WrongVariant`] naming the actual kind.
    pub fn as_bool(&self) -> (r: Result<bool, IniError>)
        ensures
            match self@ {
                ValueModel::Bool(b) => r == Ok::<bool, IniError>(b),
                _ => r matches Err(e) && e@ == ErrorModel::WrongVariant(
                    IniKind::Bool,
                    kind_of(self@),
                ),
            },
    {
        match self {
            IniValue::Bool(b) => Ok(*b),
            _ => Err(IniError::WrongVariant(IniKind::Bool, self.kind())),
        }
    }

    /// The magnitude carried by a [`IniValue::PosInt`], or a
    /// [`IniError::WrongVariant`] naming the actual kind.
    pub fn as_pos_int(&self) -> (r: Result<u64, IniError>)
        ensures
            match self@ {
                ValueModel::PosInt(n) => r == Ok::<u64, IniError>(n),
                _ => r matches Err(e) && e@ == ErrorModel::WrongVariant(
                    IniKind::PosInt,
                    kind_of(self@),
                ),
            },
    {
        match self {
            IniValue::PosInt(n) => Ok(*n),
            _ => Err(IniError::WrongVariant(IniKind::PosInt, self.kind())),
        }
    }

    /// The value carried by a [`IniValue::NegInt`], or a
    /// [`IniError::WrongVariant`] naming the actual kind.
    pub fn as_neg_int(&self) -> (r: Result<i64, IniError>)
        ensures
            match self@ {
                ValueModel::NegInt(n) => r == Ok::<i64, IniError>(n),
                _ => r matches Err(e) && e@ == ErrorModel::WrongVariant(
                    IniKind::NegInt,
                    kind_of(self@),
                ),
            },
    {
        match self {
            IniValue::NegInt(n) => Ok(*n),
            _ => Err(IniError::WrongVariant(IniKind::NegInt, self.kind())),
        }
    }

    /// The literal text carried by a [`IniValue::Float`], or a
    /// [`IniError::WrongVariant`] naming the actual kind.
    pub fn as_float_text(&self) -> (r: Result<String, IniError>)
        ensures
            match self@ {
                ValueModel::Float(s) => r matches Ok(v) && v@ == s,
                _ => r matches Err(e) && e@ == ErrorModel::WrongVariant(
                    IniKind::Float,
                    kind_of(self@),
                ),
            },
    {
        match self {
            IniValue::Float(s) => Ok(s.clone()),
            _ => Err(IniError::WrongVariant(IniKind::Float, self.kind())),
        }
    }

    /// The string carried by a [`IniValue::Str`], or a
    /// [`IniError::WrongVariant`] naming the actual kind.
    pub fn as_str(&self) -> (r: Result<String, IniError>)
        ensures
            match self@ {
                ValueModel::Str(s) => r matches Ok(v) && v@ == s,
                _ => r matches Err(e) && e@ == ErrorModel::WrongVariant(
                    IniKind::Str,
                    kind_of(self@),
                ),
            },
    {
        match self {
            IniValue::Str(s) => Ok(s.clone()),
            _ => Err(IniError::WrongVariant(IniKind::Str, self.kind())),
        }
    }
}

/// LAW (boolean literals): parsing yields a boolean exactly for the
/// byte-identical trimmed literals `true` and `false`; any other token,
/// any other casing of those words included, is never classified as a
/// boolean.
pub proof fn lemma_bool_classification(raw: Seq<char>)
    ensures
        trim_spec(raw) == "true"@ ==> parse_spec(raw) == Ok::<ValueModel, ErrorModel>(
            ValueModel::Bool(true),
        ),
        trim_spec(raw) == "false"@ ==> parse_spec(raw) == Ok::<ValueModel, ErrorModel>(
            ValueModel::Bool(false),
        ),
        (parse_spec(raw) matches Ok(v) && v is Bool) ==> (trim_spec(raw) == "true"@ || trim_spec(
            raw,
        ) == "false"@),
{
    reveal_strlit("true");
    reveal_strlit("false");
    let t = trim_spec(raw);
    if t == "true"@ || t == "false"@ {
        assert(!is_quoted(t));
        assert(!is_misquoted(t));
    } else {
        assert(!(numeric_value(t) is Bool));
    }
}

/// LAW (non-finite literals rejected): parsing the literals `NaN`,
/// `inf` and `-inf` fails with a numeric-format error; no non-finite
/// number is ever produced as a value.
pub proof fn lemma_nonfinite_rejected(raw: Seq<char>)
    ensures
        trim_spec(raw) == "NaN"@ ==> parse_spec(raw) == Err::<ValueModel, ErrorModel>(
            ErrorModel::BadNumericFormat("NaN"@),
        ),
        trim_spec(raw) == "inf"@ ==> parse_spec(raw) == Err::<ValueModel, ErrorModel>(
            ErrorModel::BadNumericFormat("inf"@),
        ),
        trim_spec(raw) == "-inf"@ ==> parse_spec(raw) == Err::<ValueModel, ErrorModel>(
            ErrorModel::BadNumericFormat("-inf"@),
        ),
{
    reveal_strlit("NaN");
    reveal_strlit("inf");
    reveal_strlit("-inf");
    reveal_strlit("nan");
    reveal_strlit("true");
    reveal_strlit("false");
    let t = trim_spec(raw);
    if t == "NaN"@ {
        assert(!is_quoted(t));
        assert(!is_misquoted(t));
        assert(num_body(t) == t);
        assert(eq_ignore_case_spec(t, "nan"@)) by {
            assert forall|k: int| 0 <= k < t.len() implies is_lower_match(t[k], "nan"@[k]) by {
                if k == 0 {
                    assert(is_lower_match('N', 'n'));
                } else if k == 1 {
                    assert(is_lower_match('a', 'a'));
                } else {
                    assert(k == 2);
                    assert(is_lower_match('N', 'n'));
                }
            }
        }
    }
    if t == "inf"@ {
        assert(!is_quoted(t));
        assert(!is_misquoted(t));
        assert(num_body(t) == t);
        assert(eq_ignore_case_spec(t, "inf"@)) by {
            assert forall|k: int| 0 <= k < t.len() implies is_lower_match(t[k], "inf"@[k]) by {
            }
        }
    }
    if t == "-inf"@ {
        assert(!is_quoted(t));
        assert(!is_misquoted(t));
        assert(has_sign(t));
        assert(num_body(t) =~= "inf"@);
        assert(eq_ignore_case_spec(num_body(t), "inf"@)) by {
            assert forall|k: int|
                0 <= k < num_body(t).len() implies is_lower_match(
                num_body(t)[k],
                "inf"@[k],
            ) by {}
        }
    }
}

/// LAW (integer literals kept exact): a trimmed token of decimal digits
/// whose value fits 64 bits parses to a non-negative integer with that
/// exact magnitude.
pub proof fn lemma_integer_literal(t: Seq<char>)
    requires
        all_digits(t),
        t.len() > 0,
        dec_value(t) <= u64::MAX,
    ensures
        parse_spec(t) == Ok::<ValueModel, ErrorModel>(ValueModel::PosInt(dec_value(t) as u64)),
{
    reveal_strlit("true");
    reveal_strlit("false");
    reveal_strlit("inf");
    reveal_strlit("infinity");
    reveal_strlit("nan");
    assert(is_digit_char(t[0]));
    assert(is_digit_char(t.last()));
    lemma_trim_noop(t);
    assert(!is_quoted(t));
    assert(!is_misquoted(t));
    assert(t != "true"@) by {
        if t == "true"@ {
            assert(is_digit_char('t'));
        }
    }
    assert(t != "false"@) by {
        if t == "false"@ {
            assert(is_digit_char('f'));
        }
    }
    assert(num_body(t) == t);
    assert(!is_nonfinite_token(t)) by {
        if eq_ignore_case_spec(t, "inf"@) {
            assert(is_lower_match(t[0], 'i'));
        }
        if eq_ignore_case_spec(t, "infinity"@) {
            assert(is_lower_match(t[0], 'i'));
        }
        if eq_ignore_case_spec(t, "nan"@) {
            assert(is_lower_match(t[0], 'n'));
        }
    }
    assert(find_char_spec(t, '.') == -1) by {
        lemma_find_char_spec(t, '.');
        if find_char_spec(t, '.') != -1 {
            assert(is_digit_char(t[find_char_spec(t, '.')]));
        }
    }
    assert(int_part(t) == t);
    assert(is_numeric_token(t));
    assert(all_zeros(frac_part(t)));
    assert(!is_neg_token(t));
    assert(numeric_value(t) == ValueModel::PosInt(dec_value(t) as u64));
}

/// LAW (negative integer literals kept exact): a minus sign before a
/// digit token with a positive value in the signed 64-bit range parses
/// to a negative integer with that exact magnitude.
pub proof fn lemma_negative_integer_literal(t: Seq<char>)
    requires
        all_digits(t),
        t.len() > 0,
        0 < dec_value(t) <= 0x8000_0000_0000_0000,
    ensures
        parse_spec(seq!['-'] + t) == Ok::<ValueModel, ErrorModel>(
            ValueModel::NegInt((-(dec_value(t) as int)) as i64),
        ),
{
    reveal_strlit("true");
    reveal_strlit("false");
    reveal_strlit("inf");
    reveal_strlit("infinity");
    reveal_strlit("nan");
    let u = seq!['-'] + t;
    assert(u[0] == '-');
    assert(u.last() == t.last());
    assert(is_digit_char(t.last()));
    lemma_trim_noop(u);
    assert(!is_quoted(u));
    assert(!is_misquoted(u));
    assert(u != "true"@) by {
        if u == "true"@ {
            assert(u[0] == 't');
        }
    }
    assert(u != "false"@) by {
        if u == "false"@ {
            assert(u[0] == 'f');
        }
    }
    assert(has_sign(u));
    assert(num_body(u) =~= t);
    assert(!is_nonfinite_token(u)) by {
        if eq_ignore_case_spec(t, "inf"@) {
            assert(is_lower_match(t[0], 'i'));
            assert(is_digit_char(t[0]));
        }
        if eq_ignore_case_spec(t, "infinity"@) {
            assert(is_lower_match(t[0], 'i'));
            assert(is_digit_char(t[0]));
        }
        if eq_ignore_case_spec(t, "nan"@) {
            assert(is_lower_match(t[0], 'n'));
            assert(is_digit_char(t[0]));
        }
    }
    assert(find_char_spec(t, '.') == -1) by {
        lemma_find_char_spec(t, '.');
        if find_char_spec(t, '.') != -1 {
            assert(is_digit_char(t[find_char_spec(t, '.')]));
        }
    }
    assert(int_part(t) == t);
    assert(is_numeric_token(u));
    assert(all_zeros(frac_part(t)));
    assert(is_neg_token(u));
    assert(numeric_value(u) == ValueModel::NegInt((-(dec_value(t) as int)) as i64));
}

/// LAW (non-integral literals classified as floats): a digit token with
/// a decimal point and a non-zero fractional part parses to a float
/// carrying the literal text, so the value is preserved without loss.
pub proof fn lemma_fraction_literal(i: Seq<char>, f: Seq<char>)
    requires
        all_digits(i),
        all_digits(f),
        !all_zeros(f),
    ensures
        parse_spec(i + seq!['.'] + f) == Ok::<ValueModel, ErrorModel>(
            ValueModel::Float(i + seq!['.'] + f),
        ),
{
    reveal_strlit("true");
    reveal_strlit("false");
    reveal_strlit("inf");
    reveal_strlit("infinity");
    reveal_strlit("nan");
    let t = i + seq!['.'] + f;
    assert(f.len() > 0) by {
        if f.len() == 0 {
            assert(all_zeros(f));
        }
    }
    assert(t.last() == f.last());
    assert(is_digit_char(t.last()));
    assert(t[0] == (if i.len() > 0 {
        i[0]
    } else {
        '.'
    }));
    lemma_trim_noop(t);
    assert(!is_quoted(t));
    assert(!is_misquoted(t));
    assert(t != "true"@) by {
        if t == "true"@ {
            assert(t.last() == 'e');
        }
    }
    assert(t != "false"@) by {
        if t == "false"@ {
            assert(t.last() == 'e');
        }
    }
    assert(num_body(t) == t);
    assert(!is_nonfinite_token(t)) by {
        if eq_ignore_case_spec(t, "inf"@) {
            assert(is_lower_match(t[t.len() - 1], 'f'));
        }
        if eq_ignore_case_spec(t, "infinity"@) {
            assert(is_lower_match(t[t.len() - 1], 'y'));
        }
        if eq_ignore_case_spec(t, "nan"@) {
            assert(is_lower_match(t[t.len() - 1], 'n'));
        }
    }
    assert(find_char_spec(t, '.') == i.len()) by {
        lemma_find_char_spec(t, '.');
        assert(t[i.len() as int] == '.');
        let j = find_char_spec(t, '.');
        if j == -1 {
        } else {
            if j < i.len() {
                assert(t[j] == i[j]);
                assert(is_digit_char(t[j]));
            }
            if j > i.len() {
                assert(t[i.len() as int] != '.');
            }
        }
    }
    assert(int_part(t) =~= i);
    assert(frac_part(t) =~= f);
    assert(find_char_spec(f, '.') == -1) by {
        lemma_find_char_spec(f, '.');
        if find_char_spec(f, '.') != -1 {
            assert(is_digit_char(f[find_char_spec(f, '.')]));
        }
    }
    assert(is_numeric_token(t));
    assert(numeric_value(t) == ValueModel::Float(t));
}

/// LAW (quoting round trip): wrapping any quote-free text in one
/// matching pair of quotes parses back to exactly that text; a quote on
/// one side only is rejected as misquoted.
pub proof fn lemma_quote_round_trip(s: Seq<char>, q: char)
    requires
        is_quote_char(q),
        forall|k: int| 0 <= k < s.len() ==> !is_quote_char(#[trigger] s[k]),
    ensures
        parse_spec(seq![q] + s + seq![q]) == Ok::<ValueModel, ErrorModel>(ValueModel::Str(s)),
        parse_spec(seq![q] + s) matches Err(e) && e is MisquotedString,
        parse_spec(s + seq![q]) matches Err(e) && e is MisquotedString,
{
    assert(!is_space_char(q));
    let w = seq![q] + s + seq![q];
    assert(w.len() == s.len() + 2);
    assert(w[0] == q);
    assert(w.last() == q);
    lemma_trim_noop(w);
    assert(is_quoted(w));
    assert(w.subrange(1, w.len() - 1) =~= s);

    let u = seq![q] + s;
    assert(u[0] == q);
    assert(trim_start_spec(u) == u);
    lemma_trim_end_keeps_first(u);
    lemma_trim_end_props(u);
    let tu = trim_spec(u);
    assert(tu == trim_end_spec(u));
    assert(tu.len() > 0);
    assert(tu[0] == q);
    if tu.len() >= 2 {
        assert(tu == u.subrange(0, tu.len() as int));
        assert(tu.last() == u[tu.len() - 1]);
        assert(u[tu.len() - 1] == s[tu.len() - 2]);
        assert(!is_quote_char(tu.last()));
    }
    assert(!is_quoted(tu));
    assert(is_misquoted(tu));

    let v = s + seq![q];
    assert(v.last() == q);
    lemma_trim_start_keeps_last(v);
    lemma_trim_start_props(v);
    let t1 = trim_start_spec(v);
    assert(t1.last() == q);
    assert(trim_end_spec(t1) == t1);
    let tv = trim_spec(v);
    assert(tv == t1);
    assert(tv.len() > 0);
    if tv.len() >= 2 {
        assert(tv == v.subrange(v.len() - tv.len(), v.len() as int));
        assert(tv[0] == v[v.len() - tv.len()]);
        assert(v.len() - tv.len() < s.len());
        assert(tv[0] == s[v.len() - tv.len()]);
        assert(!is_quote_char(tv[0]));
        assert(!is_quoted(tv));
    }
    assert(is_misquoted(tv));
}

impl FromIni for IniValue {
    /// Parses one scalar token, as [`IniValue::from_str`] does.
    fn from_ini(ini: &str) -> (r: Result<IniValue, IniError>) {
        IniValue::from_str(ini)
    }
}

impl ToIni for IniValue {
    /// Renders the scalar, as [`IniValue::render`] does.
    fn to_ini(&self) -> String {
        self.render()
    }
}

} // verus!
