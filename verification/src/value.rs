//! The tagged scalar a cell holds, its type, and the per-column limiter.

use vstd::prelude::*;
use crate::chars::{
    ascii_lower, chars_of, display_width, eq_ignore_ascii_case, split_ws, split_whitespace_chars,
    str_display_width,
};
use crate::digits::{dec_seq, int_literal_val, is_i64_literal, i64_to_string, parse_i64};
use crate::error::{DcsvError, DcsvResult};

verus! {

/// Number of attributes a limiter schema row carries: type, default,
/// variant, pattern.
pub const LIMITER_ATTRIBUTE_LEN: usize = 4;

/// The type of a value: a signed integer or free text.
#[derive(Clone, Copy, PartialEq, Eq, Structural, Debug)]
pub enum ValueType {
    Number,
    Text,
}

/// The name under which a value type is rendered.
pub open spec fn value_type_str(t: ValueType) -> Seq<char> {
    match t {
        ValueType::Number => "Number"@,
        ValueType::Text => "Text"@,
    }
}

impl ValueType {
    /// Parse a type token, ignoring ASCII case; only `number` and `text`
    /// are accepted.
    pub fn from_str(s: &str) -> (r: DcsvResult<ValueType>)
        ensures
            r is Ok <==> (ascii_lower(s@) == "number"@ || ascii_lower(s@) == "text"@),
            r matches Ok(t) ==> t == (if ascii_lower(s@) == "number"@ {
                ValueType::Number
            } else {
                ValueType::Text
            }),
            r matches Err(e) ==> e is InvalidValueType,
    {
        proof {
            reveal_strlit("number");
            reveal_strlit("text");
            assert(ascii_lower("number"@) =~= "number"@);
            assert(ascii_lower("text"@) =~= "text"@);
        }
        if eq_ignore_ascii_case(s, "number") {
            Ok(ValueType::Number)
        } else if eq_ignore_ascii_case(s, "text") {
            proof {
                assert("number"@.len() == 6 && "text"@.len() == 4);
                assert(ascii_lower(s@).len() == s@.len());
            }
            Ok(ValueType::Text)
        } else {
            Err(DcsvError::InvalidValueType("Value type should be either number or text".to_owned()))
        }
    }

    /// The rendered name of the type.
    pub fn to_string(&self) -> (r: String)
        ensures
            r@ == value_type_str(*self),
    {
        match self {
            ValueType::Number => "Number".to_owned(),
            ValueType::Text => "Text".to_owned(),
        }
    }
}

impl Default for ValueType {
    /// Text is the unconstrained default type.
    fn default() -> (r: Self)
        ensures
            r == ValueType::Text,
    {
        ValueType::Text
    }
}

/// The mathematical content of a value: an integer or a character sequence.
pub ghost enum ValueModel {
    Num(int),
    Str(Seq<char>),
}

/// The string form of a value, as rendering writes it.
pub open spec fn val_str(m: ValueModel) -> Seq<char> {
    match m {
        ValueModel::Num(n) => dec_seq(n),
        ValueModel::Str(s) => s,
    }
}

/// The display width of a value's string form.
pub open spec fn val_width(m: ValueModel) -> nat {
    display_width(val_str(m))
}

/// The type of a value model.
pub open spec fn val_type(m: ValueModel) -> ValueType {
    match m {
        ValueModel::Num(_) => ValueType::Number,
        ValueModel::Str(_) => ValueType::Text,
    }
}

/// A cell value: a signed integer or free text.  There is deliberately no
/// floating-point variant, so every value round-trips exactly through text.
#[derive(Debug)]
pub enum Value {
    Number(i64),
    Text(String),
}

impl View for Value {
    type V = ValueModel;

    open spec fn view(&self) -> ValueModel {
        match self {
            Value::Number(n) => ValueModel::Num(*n as int),
            Value::Text(s) => ValueModel::Str(s@),
        }
    }
}

impl Clone for Value {
    /// A clone has the same content.
    fn clone(&self) -> (r: Self)
        ensures
            r@ == self@,
    {
        match self {
            Value::Number(n) => Value::Number(*n),
            Value::Text(s) => Value::Text(s.clone()),
        }
    }
}

impl Default for Value {
    /// The default value is empty text.
    fn default() -> (r: Self)
        ensures
            r@ == ValueModel::Str(Seq::empty()),
    {
        Value::Text(String::new())
    }
}

impl PartialEq for Value {
    fn eq(&self, other: &Value) -> (r: bool)
    {
        match (self, other) {
            (Value::Number(a), Value::Number(b)) => *a == *b,
            (Value::Text(a), Value::Text(b)) => *a == *b,
            _ => false,
        }
    }
}

impl vstd::std_specs::cmp::PartialEqSpecImpl for Value {
    open spec fn obeys_eq_spec() -> bool {
        true
    }

    open spec fn eq_spec(&self, other: &Value) -> bool {
        self@ == other@
    }
}

impl Value {
    /// The type of this value.
    pub fn get_type(&self) -> (r: ValueType)
        ensures
            r == val_type(self@),
    {
        match self {
            Value::Number(_) => ValueType::Number,
            Value::Text(_) => ValueType::Text,
        }
    }

    /// Convert a string into a value of the given type.  For the number
    /// type, an empty string becomes zero and anything that is not a signed
    /// integer literal is rejected.
    pub fn from_str(src: &str, value_type: ValueType) -> (r: DcsvResult<Value>)
        ensures
            r is Err <==> value_type == ValueType::Number && src@.len() > 0 && !is_i64_literal(
                src@,
            ),
            r matches Err(e) ==> e is InvalidValueType,
            r matches Ok(v) ==> v@ == spec_value_from_str(src@, value_type),
    {
        match value_type {
            ValueType::Number => {
                if src.unicode_len() == 0 {
                    return Ok(Value::Number(0));
                }
                let cs = chars_of(src);
                match parse_i64(cs.as_slice()) {
                    Some(n) => Ok(Value::Number(n)),
                    None => Err(
                        DcsvError::InvalidValueType("not a valid number".to_owned()),
                    ),
                }
            },
            ValueType::Text => Ok(Value::Text(src.to_owned())),
        }
    }

    /// Create the empty value of a type: zero for numbers, the empty string
    /// for text.
    pub fn empty(value_type: ValueType) -> (r: Self)
        ensures
            r@ == spec_empty_value(value_type),
    {
        match value_type {
            ValueType::Number => Value::Number(0),
            ValueType::Text => Value::Text(String::new()),
        }
    }

    /// The string form of the value.
    pub fn to_string(&self) -> (r: String)
        ensures
            r@ == val_str(self@),
    {
        match self {
            Value::Number(n) => i64_to_string(*n),
            Value::Text(s) => s.clone(),
        }
    }

    /// The display width of the value's string form.
    pub fn get_width(&self) -> (r: usize)
        ensures
            r as nat == val_width(self@),
    {
        let s = self.to_string();
        str_display_width(s.as_str())
    }
}

/// What `Value::from_str` builds on success.
pub open spec fn spec_value_from_str(src: Seq<char>, value_type: ValueType) -> ValueModel {
    match value_type {
        ValueType::Number => if src.len() == 0 {
            ValueModel::Num(0)
        } else {
            ValueModel::Num(int_literal_val(src))
        },
        ValueType::Text => ValueModel::Str(src),
    }
}

/// The empty value of each type.
pub open spec fn spec_empty_value(value_type: ValueType) -> ValueModel {
    match value_type {
        ValueType::Number => ValueModel::Num(0),
        ValueType::Text => ValueModel::Str(Seq::empty()),
    }
}

/// What `regex::Regex::new` decides: whether a pattern is a valid regular
/// expression, a function of the pattern alone.
pub uninterp spec fn regex_valid(pattern: Seq<char>) -> bool;

/// What `regex::Regex::is_match` returns: a function of the pattern and the
/// text alone.
pub uninterp spec fn regex_matches(pattern: Seq<char>, text: Seq<char>) -> bool;

/// Relies on `regex::Regex::new`: it compiles a pattern or rejects it, and
/// its outcome depends on the pattern string alone.
#[verifier::external_body]
fn regex_pattern_valid(pattern: &str) -> (r: bool)
    ensures
        r == regex_valid(pattern@),
{
    regex::Regex::new(pattern).is_ok()
}

/// Relies on `regex::Regex::new` and `regex::Regex::is_match`: whether a
/// valid pattern matches a text depends on the two strings alone.
#[verifier::external_body]
fn regex_match(pattern: &str, text: &str) -> (r: bool)
    requires
        regex_valid(pattern@),
    ensures
        r == regex_matches(pattern@, text@),
{
    match regex::Regex::new(pattern) {
        Ok(re) => re.is_match(text),
        Err(_) => false,
    }
}

/// The mathematical content of a limiter.
pub ghost struct LimiterModel {
    pub value_type: ValueType,
    pub default: Option<ValueModel>,
    pub variant: Option<Seq<ValueModel>>,
    pub pattern: Option<Seq<char>>,
}

/// A limiter's internal consistency: variant and pattern are mutually
/// exclusive, each needs a default that satisfies it, and a stored pattern
/// is a valid regular expression.
pub open spec fn lim_wf(m: LimiterModel) -> bool {
    &&& (m.variant is Some ==> m.pattern is None)
    &&& (m.variant is Some ==> m.default is Some && m.variant->0.contains(m.default->0))
    &&& (m.pattern is Some ==> m.default is Some && regex_valid(m.pattern->0) && regex_matches(
        m.pattern->0,
        val_str(m.default->0),
    ))
}

/// Whether a value passes a limiter: its type matches, and it belongs to
/// the variant set, or matches the pattern, if one is present.
pub open spec fn spec_qualify(m: LimiterModel, v: ValueModel) -> bool {
    &&& val_type(v) == m.value_type
    &&& (if m.variant is Some {
        m.variant->0.contains(v)
    } else if m.pattern is Some {
        regex_matches(m.pattern->0, val_str(v))
    } else {
        true
    })
}

/// Whether a value can be reinterpreted as the limiter's type, and as what.
pub open spec fn spec_convertible(m: LimiterModel, v: ValueModel) -> Option<ValueType> {
    match m.value_type {
        ValueType::Number => match v {
            ValueModel::Str(s) => if s.len() == 0 || is_i64_literal(s) {
                Some(ValueType::Number)
            } else {
                None
            },
            ValueModel::Num(_) => Some(ValueType::Number),
        },
        ValueType::Text => Some(ValueType::Text),
    }
}

/// Constrains which values a column accepts: a type, an optional default,
/// and at most one of a finite variant set or a regular-expression pattern.
pub struct ValueLimiter {
    value_type: ValueType,
    default: Option<Value>,
    variant: Option<Vec<Value>>,
    pattern: Option<String>,
}

impl View for ValueLimiter {
    type V = LimiterModel;

    closed spec fn view(&self) -> LimiterModel {
        LimiterModel {
            value_type: self.value_type,
            default: match self.default {
                Some(v) => Some(v@),
                None => None,
            },
            variant: match self.variant {
                Some(vs) => Some(vs@.map_values(|x: Value| x@)),
                None => None,
            },
            pattern: match self.pattern {
                Some(p) => Some(p@),
                None => None,
            },
        }
    }
}

impl Clone for ValueLimiter {
    /// A clone has the same content.
    fn clone(&self) -> (r: Self)
        ensures
            r@ == self@,
    {
        proof {
            use_type_invariant(&*self);
        }
        let default_c = match &self.default {
            Some(v) => Some(v.clone()),
            None => None,
        };
        let variant_c = match &self.variant {
            Some(vs) => Some(clone_values(vs.as_slice())),
            None => None,
        };
        let pattern_c = match &self.pattern {
            Some(p) => Some(p.clone()),
            None => None,
        };
        proof {
            assert((match default_c {
                Some(v) => Some(v@),
                None => None::<ValueModel>,
            }) == self@.default);
            assert((match variant_c {
                Some(vs) => Some(vs@.map_values(|x: Value| x@)),
                None => None::<Seq<ValueModel>>,
            }) == self@.variant);
            assert((match pattern_c {
                Some(p) => Some(p@),
                None => None::<Seq<char>>,
            }) == self@.pattern);
        }
        let r = ValueLimiter {
            value_type: self.value_type,
            default: default_c,
            variant: variant_c,
            pattern: pattern_c,
        };
        r
    }
}

impl Default for ValueLimiter {
    /// The unconstrained limiter: any text value.
    fn default() -> (r: Self)
        ensures
            r@ == (LimiterModel {
                value_type: ValueType::Text,
                default: None,
                variant: None,
                pattern: None,
            }),
            lim_wf(r@),
    {
        ValueLimiter { value_type: ValueType::Text, default: None, variant: None, pattern: None }
    }
}

/// An element-wise clone of a value list.
pub fn clone_values(vs: &[Value]) -> (r: Vec<Value>)
    ensures
        r@.map_values(|x: Value| x@) == vs@.map_values(|x: Value| x@),
{
    let mut r: Vec<Value> = Vec::new();
    let mut i: usize = 0;
    while i < vs.len()
        invariant
            i <= vs@.len(),
            r@.map_values(|x: Value| x@) == vs@.map_values(|x: Value| x@).take(i as int),
        decreases vs@.len() - i,
    {
        let ghost old_r = r@;
        r.push(vs[i].clone());
        proof {
            assert(r@.map_values(|x: Value| x@) =~= old_r.map_values(|x: Value| x@).push(
                vs@[i as int]@,
            ));
            assert(vs@.map_values(|x: Value| x@).take(i + 1) =~= vs@.map_values(
                |x: Value| x@,
            ).take(i as int).push(vs@[i as int]@));
        }
        i = i + 1;
    }
    proof {
        assert(vs@.map_values(|x: Value| x@).take(vs@.len() as int) =~= vs@.map_values(
            |x: Value| x@,
        ));
    }
    r
}

/// Whether a value list contains the given value.
pub fn values_contain(vs: &[Value], v: &Value) -> (r: bool)
    ensures
        r == vs@.map_values(|x: Value| x@).contains(v@),
{
    let mut i: usize = 0;
    while i < vs.len()
        invariant
            i <= vs@.len(),
            forall|j: int| 0 <= j < i ==> vs@[j]@ != v@,
        decreases vs@.len() - i,
    {
        if &vs[i] == v {
            proof {
                assert(vs@.map_values(|x: Value| x@)[i as int] == v@);
            }
            return true;
        }
        i = i + 1;
    }
    proof {
        let m = vs@.map_values(|x: Value| x@);
        if m.contains(v@) {
            let j = choose|j: int| 0 <= j < m.len() && m[j] == v@;
            assert(vs@[j]@ == v@);
        }
    }
    false
}

impl ValueLimiter {
    /// The limiter's internal consistency, kept at all times.
    #[verifier::type_invariant]
    spec fn inv(self) -> bool {
        lim_wf(self@)
    }

    /// Whether a value passes this limiter.
    pub fn qualify(&self, value: &Value) -> (r: bool)
        ensures
            r == spec_qualify(self@, value@),
    {
        proof {
            use_type_invariant(&*self);
        }
        if value.get_type() != self.get_type() {
            return false;
        }
        match &self.variant {
            Some(vs) => values_contain(vs.as_slice(), value),
            None => match &self.pattern {
                Some(p) => {
                    let s = value.to_string();
                    regex_match(p.as_str(), s.as_str())
                },
                None => true,
            },
        }
    }

    /// Whether the value could be reinterpreted as this limiter's type.
    pub fn is_convertible(&self, value: &Value) -> (r: Option<ValueType>)
        ensures
            r == spec_convertible(self@, value@),
    {
        match self.value_type {
            ValueType::Number => match value {
                Value::Text(text) => {
                    if text.unicode_len() == 0 {
                        return Some(ValueType::Number);
                    }
                    let cs = chars_of(text.as_str());
                    match parse_i64(cs.as_slice()) {
                        Some(_) => Some(ValueType::Number),
                        None => None,
                    }
                },
                Value::Number(_) => Some(ValueType::Number),
            },
            ValueType::Text => Some(ValueType::Text),
        }
    }

    /// Build a limiter from the four schema attributes, in order: type,
    /// default, whitespace-separated variants, pattern.
    #[verifier::loop_isolation(false)]
    pub fn from_line(attributes: &[String]) -> (r: DcsvResult<ValueLimiter>)
        ensures
            r matches Ok(lim) ==> Some(lim@) == spec_from_line(
                attributes@.map_values(|s: String| s@),
            ),
            r is Err ==> spec_from_line(attributes@.map_values(|s: String| s@)) is None,
            r matches Err(e) ==> ({
                let attrs = attributes@.map_values(|s: String| s@);
                &&& (attrs.len() != 4 ==> e is InvalidRowData)
                &&& (attrs.len() == 4 && !schema_type_ok(attrs) ==> e is InvalidValueType)
                &&& (attrs.len() == 4 && schema_type_ok(attrs) && schema_number_fail(attrs)
                    ==> e is InvalidValueType)
                &&& (attrs.len() == 4 && schema_type_ok(attrs) && !schema_number_fail(attrs)
                    ==> e is InvalidLimiter)
            }),
    {
        let ghost attrs = attributes@.map_values(|s: String| s@);
        proof {
            if attributes@.len() == 4 {
                assert(attrs[0] == attributes@[0]@);
                assert(attrs[1] == attributes@[1]@);
                assert(attrs[2] == attributes@[2]@);
                assert(attrs[3] == attributes@[3]@);
            }
        }
        if attributes.len() != LIMITER_ATTRIBUTE_LEN {
            return Err(
                DcsvError::InvalidRowData("Schema row has insufficient columns".to_owned()),
            );
        }
        let vt = match ValueType::from_str(attributes[0].as_str()) {
            Ok(t) => t,
            Err(e) => {
                return Err(e);
            },
        };
        let default = &attributes[1];
        let variants = &attributes[2];
        let pattern = &attributes[3];

        if default.as_str().unicode_len() != 0 {
            let default_v = match Value::from_str(default.as_str(), vt) {
                Ok(v) => v,
                Err(e) => {
                    proof {
                        assert(schema_number_fail(attrs));
                    }
                    return Err(e);
                },
            };
            if variants.as_str().unicode_len() != 0 {
                let var_chars = chars_of(variants.as_str());
                let tokens = split_whitespace_chars(&var_chars);
                let mut values: Vec<Value> = Vec::new();
                let ghost token_views = tokens@.map_values(|s: String| s@);
                proof {
                    assert(token_views == split_ws(attrs[2]));
                }
                let mut i: usize = 0;
                while i < tokens.len()
                    invariant
                        i <= tokens@.len(),
                        token_views == tokens@.map_values(|s: String| s@),
                        token_views == split_ws(attrs[2]),
                        vt == ValueType::Number || vt == ValueType::Text,
                        forall|j: int|
                            0 <= j < i ==> !(vt == ValueType::Number && token_views[j].len() > 0
                                && !is_i64_literal(token_views[j])),
                        values@.map_values(|x: Value| x@) == Seq::new(
                            i as nat,
                            |j: int| spec_value_from_str(token_views[j], vt),
                        ),
                    decreases tokens@.len() - i,
                {
                    match Value::from_str(tokens[i].as_str(), vt) {
                        Ok(v) => {
                            let ghost old_values = values@;
                            values.push(v);
                            proof {
                                assert(values@.map_values(|x: Value| x@) =~= old_values.map_values(
                                    |x: Value| x@,
                                ).push(v@));
                                assert(values@.map_values(|x: Value| x@) =~= Seq::new(
                                    (i + 1) as nat,
                                    |j: int| spec_value_from_str(token_views[j], vt),
                                ));
                            }
                        },
                        Err(e) => {
                            proof {
                                assert(token_views[i as int] == tokens@[i as int]@);
                                assert(split_ws(attrs[2])[i as int].len() > 0 && !is_i64_literal(
                                    split_ws(attrs[2])[i as int],
                                ));
                                assert(schema_number_fail(attrs));
                            }
                            return Err(e);
                        },
                    }
                    i = i + 1;
                }
                let mut limiter = ValueLimiter::default();
                limiter.set_type(vt);
                proof {
                    let spec_tokens = split_ws(attrs[2]);
                    assert(Seq::new(spec_tokens.len(), |j: int| spec_value_from_str(
                        spec_tokens[j], vt)) =~= values@.map_values(|x: Value| x@));
                }
                match limiter.set_variant(default_v, values.as_slice()) {
                    Ok(_) => Ok(limiter),
                    Err(e) => {
                        proof {
                            assert(!schema_number_fail(attrs)) by {
                                assert(forall|j: int|
                                    0 <= j < split_ws(attrs[2]).len() ==> !((
                                    #[trigger] split_ws(attrs[2])[j]).len() > 0
                                        && !is_i64_literal(split_ws(attrs[2])[j])) || vt
                                        != ValueType::Number);
                            }
                        }
                        Err(e)
                    },
                }
            } else if pattern.as_str().unicode_len() != 0 {
                if !regex_pattern_valid(pattern.as_str()) {
                    return Err(
                        DcsvError::InvalidLimiter("Pattern is not a valid regex".to_owned()),
                    );
                }
                let mut limiter = ValueLimiter::default();
                limiter.set_type(vt);
                match limiter.set_pattern(default_v, pattern.as_str()) {
                    Ok(_) => Ok(limiter),
                    Err(e) => Err(e),
                }
            } else {
                Ok(
                    ValueLimiter {
                        value_type: vt,
                        default: Some(default_v),
                        variant: None,
                        pattern: None,
                    },
                )
            }
        } else {
            if pattern.as_str().unicode_len() != 0 || variants.as_str().unicode_len() != 0 {
                return Err(
                    DcsvError::InvalidLimiter(
                        "Either pattern or variants needs default value to be valid".to_owned(),
                    ),
                );
            }
            Ok(ValueLimiter { value_type: vt, default: None, variant: None, pattern: None })
        }
    }

    /// The limiter's type.
    pub fn get_type(&self) -> (r: ValueType)
        ensures
            r == self@.value_type,
    {
        self.value_type
    }

    /// Set the limiter's type.
    pub fn set_type(&mut self, column_type: ValueType)
        ensures
            final(self)@ == (LimiterModel { value_type: column_type, ..old(self)@ }),
    {
        proof {
            use_type_invariant(&*self);
        }
        self.value_type = column_type;
    }

    /// The default value, if one is set.
    pub fn get_default(&self) -> (r: Option<&Value>)
        ensures
            r matches Some(v) ==> self@.default == Some(v@),
            r is None ==> self@.default is None,
    {
        self.default.as_ref()
    }

    /// The variant set, if one is set.
    pub fn get_variant(&self) -> (r: Option<&Vec<Value>>)
        ensures
            r matches Some(vs) ==> self@.variant == Some(vs@.map_values(|x: Value| x@)),
            r is None ==> self@.variant is None,
    {
        self.variant.as_ref()
    }

    /// Constrain the limiter to a finite set of values; the default must be
    /// one of them.  Any previously set pattern is dropped.
    pub fn set_variant(&mut self, default: Value, variants: &[Value]) -> (r: DcsvResult<()>)
        ensures
            r is Ok <==> variants@.map_values(|x: Value| x@).contains(default@),
            r is Ok ==> final(self)@ == (LimiterModel {
                value_type: old(self)@.value_type,
                default: Some(default@),
                variant: Some(variants@.map_values(|x: Value| x@)),
                pattern: None,
            }),
            r is Err ==> final(self)@ == old(self)@ && (r->Err_0 is InvalidLimiter),
    {
        let vv: Vec<Value> = clone_values(variants);
        if !values_contain(variants, &default) {
            return Err(
                DcsvError::InvalidLimiter(
                    "Default value should be among one of variants".to_owned(),
                ),
            );
        }
        *self = ValueLimiter {
            value_type: self.value_type,
            default: Some(default),
            variant: Some(vv),
            pattern: None,
        };
        Ok(())
    }

    /// The pattern source, if one is set.
    pub fn get_pattern(&self) -> (r: Option<&String>)
        ensures
            r matches Some(p) ==> self@.pattern == Some(p@),
            r is None ==> self@.pattern is None,
    {
        self.pattern.as_ref()
    }

    /// Constrain the limiter to values matching a regular expression; the
    /// pattern must be valid and the default must match it.  Any previously
    /// set variant set is dropped.
    pub fn set_pattern(&mut self, default: Value, pattern: &str) -> (r: DcsvResult<()>)
        ensures
            r is Ok <==> regex_valid(pattern@) && regex_matches(pattern@, val_str(default@)),
            r is Ok ==> final(self)@ == (LimiterModel {
                value_type: old(self)@.value_type,
                default: Some(default@),
                variant: None,
                pattern: Some(pattern@),
            }),
            r is Err ==> final(self)@ == old(self)@ && (r->Err_0 is InvalidLimiter),
    {
        if !regex_pattern_valid(pattern) {
            return Err(DcsvError::InvalidLimiter("Pattern is not a valid regex".to_owned()));
        }
        let ds = default.to_string();
        if !regex_match(pattern, ds.as_str()) {
            return Err(DcsvError::InvalidLimiter("Default value should match pattern".to_owned()));
        }
        *self = ValueLimiter {
            value_type: self.value_type,
            default: Some(default),
            variant: None,
            pattern: Some(pattern.to_owned()),
        };
        Ok(())
    }
}

/// Whether the first schema attribute is a recognised type token.
pub open spec fn schema_type_ok(attrs: Seq<Seq<char>>) -> bool {
    ascii_lower(attrs[0]) == "number"@ || ascii_lower(attrs[0]) == "text"@
}

/// Whether a number-typed schema row holds a default or a variant member
/// that does not parse as a number.
pub open spec fn schema_number_fail(attrs: Seq<Seq<char>>) -> bool {
    &&& ascii_lower(attrs[0]) == "number"@
    &&& attrs[1].len() > 0
    &&& (!is_i64_literal(attrs[1]) || (attrs[2].len() > 0 && (exists|j: int|
        0 <= j < split_ws(attrs[2]).len() && (#[trigger] split_ws(attrs[2])[j]).len() > 0
            && !is_i64_literal(split_ws(attrs[2])[j]))))
}

/// What `ValueLimiter::from_line` builds when it succeeds: `None` stands
/// for every rejected attribute list.
pub open spec fn spec_from_line(attrs: Seq<Seq<char>>) -> Option<LimiterModel> {
    if attrs.len() != 4 {
        None
    } else if !(ascii_lower(attrs[0]) == "number"@ || ascii_lower(attrs[0]) == "text"@) {
        None
    } else {
        let vt = if ascii_lower(attrs[0]) == "number"@ {
            ValueType::Number
        } else {
            ValueType::Text
        };
        let default_s = attrs[1];
        let variants_s = attrs[2];
        let pattern_s = attrs[3];
        if default_s.len() > 0 {
            if vt == ValueType::Number && !is_i64_literal(default_s) {
                None
            } else {
                let default_v = spec_value_from_str(default_s, vt);
                if variants_s.len() > 0 {
                    let tokens = split_ws(variants_s);
                    if vt == ValueType::Number && (exists|j: int|
                        0 <= j < tokens.len() && tokens[j].len() > 0 && !is_i64_literal(
                            #[trigger] tokens[j],
                        )) {
                        None
                    } else {
                        let values = Seq::new(
                            tokens.len(),
                            |j: int| spec_value_from_str(tokens[j], vt),
                        );
                        if values.contains(default_v) {
                            Some(
                                LimiterModel {
                                    value_type: vt,
                                    default: Some(default_v),
                                    variant: Some(values),
                                    pattern: None,
                                },
                            )
                        } else {
                            None
                        }
                    }
                } else if pattern_s.len() > 0 {
                    if regex_valid(pattern_s) && regex_matches(pattern_s, val_str(default_v)) {
                        Some(
                            LimiterModel {
                                value_type: vt,
                                default: Some(default_v),
                                variant: None,
                                pattern: Some(pattern_s),
                            },
                        )
                    } else {
                        None
                    }
                } else {
                    Some(
                        LimiterModel {
                            value_type: vt,
                            default: Some(default_v),
                            variant: None,
                            pattern: None,
                        },
                    )
                }
            }
        } else {
            if pattern_s.len() > 0 || variants_s.len() > 0 {
                None
            } else {
                Some(
                    LimiterModel { value_type: vt, default: None, variant: None, pattern: None },
                )
            }
        }
    }
}

} // verus!
