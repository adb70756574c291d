//! The `props` map carried by merge-tree segments.
//!
//! Property keys use a `namespace!name` convention (`format!bold`,
//! `list!reference`, `style!reference`). Keys without a `!` are structural
//! (`markerId`, `nodeType`, `attribution`).
//!
//! Every property is preserved in the internal model. Only properties whose
//! behaviour is demonstrated by the corpus are given typed accessors; the rest
//! stay available as raw JSON for diagnostics.
//!
//! This is reverse-engineered behaviour and is not based on a published
//! Microsoft Prague/Fluid file-format specification.

use vstd::prelude::*;
use crate::json::{Json, JsonValue, field_of, view_members, copy_members};
use crate::text::{chars_of, has_prefix, same_text, starts_with, string_of};

verus! {

pub const PROP_BOLD: &'static str = "format!bold";
pub const PROP_ITALIC: &'static str = "format!italic";
pub const PROP_STYLE_REFERENCE: &'static str = "style!reference";
pub const PROP_LIST_REFERENCE: &'static str = "list!reference";
pub const PROP_HYPERLINK_URL: &'static str = "hyperlink!url";
pub const PROP_PLACEHOLDER_ATTRIBUTE_TEXT: &'static str = "placeholder!attributeText";
pub const PROP_NODE_TYPE: &'static str = "nodeType";
pub const PROP_MARKER_ID: &'static str = "markerId";
pub const PROP_ATTRIBUTION: &'static str = "attribution";

/// Value seen on the marker that terminates the document title.
pub const PLACEHOLDER_ADD_TITLE: &'static str = "placeholder!addTitle";

/// How well a property key is understood.
#[derive(Debug, Clone, Copy, PartialEq, Eq, Structural, PartialOrd, Ord)]
pub enum PropertyClass {
    /// Understood and used to reconstruct the document.
    Rendered,
    /// Recognised in the corpus but deliberately not rendered.
    Recognised,
    /// Not seen before. Preserved and reported.
    Unknown,
}

impl PropertyClass {
    /// The variant's own name, as `{:?}` writes it.
    pub fn debug_name(&self) -> (r: &'static str)
        ensures
            r@ == (match self {
                PropertyClass::Rendered => "Rendered"@,
                PropertyClass::Recognised => "Recognised"@,
                PropertyClass::Unknown => "Unknown"@,
            }),
    {
        match self {
            PropertyClass::Rendered => "Rendered",
            PropertyClass::Recognised => "Recognised",
            PropertyClass::Unknown => "Unknown",
        }
    }

    /// The name used in reports: `rendered`, `recognised` or `unknown`.
    pub fn name(&self) -> (r: &'static str)
        ensures
            r@ == (match self {
                PropertyClass::Rendered => "rendered"@,
                PropertyClass::Recognised => "recognised"@,
                PropertyClass::Unknown => "unknown"@,
            }),
    {
        match self {
            PropertyClass::Rendered => "rendered",
            PropertyClass::Recognised => "recognised",
            PropertyClass::Unknown => "unknown",
        }
    }
}

/// Keys that are understood and rendered.
pub open spec fn rendered_keys() -> Seq<Seq<char>> {
    seq![
        "format!bold"@,
        "format!italic"@,
        "style!reference"@,
        "list!reference"@,
        "hyperlink!url"@,
        "nodeType"@,
    ]
}

/// Keys recognised in the corpus but deliberately not rendered.
pub open spec fn recognised_keys() -> Seq<Seq<char>> {
    seq![
        "markerId"@,
        "attribution"@,
        "placeholder!attributeText"@,
        "list!id"@,
        "paragraph!textAlignment"@,
        "paragraph!writingMode"@,
        "proofing!spellingError"@,
        "proofing!grammarError"@,
        "content!locale"@,
        "content!detectedLocale"@,
        "component!display"@,
        "component!height"@,
        "component!width"@,
        "component!mimeType"@,
        "component!routerInput"@,
        "component!url"@,
        "component!urlTitle"@,
        "tab!indentCountLeft"@,
        "tab!indentCountRight"@,
        "aria!role"@,
    ]
}

/// True for a key that records who set another property: a leading `@`
/// followed by the name of that property.
pub open spec fn is_attribution_key(key: Seq<char>) -> bool {
    key.len() >= 2 && key[0] == '@'
}

/// The class of a property key.
pub open spec fn class_of(key: Seq<char>) -> PropertyClass {
    if rendered_keys().contains(key) {
        PropertyClass::Rendered
    } else if recognised_keys().contains(key) {
        PropertyClass::Recognised
    } else if has_prefix(key, "list!itemFormat-"@) || has_prefix(key, "list!list-"@) {
        PropertyClass::Recognised
    } else if is_attribution_key(key) {
        PropertyClass::Recognised
    } else {
        PropertyClass::Unknown
    }
}

/// Whether `key` is one of `keys`.
fn one_of(key: &str, keys: &Vec<&'static str>) -> (r: bool)
    ensures
        r == keys@.map_values(|k: &'static str| k@).contains(key@),
{
    let ghost views = keys@.map_values(|k: &'static str| k@);
    let mut i: usize = 0;
    while i < keys.len()
        invariant
            i <= keys@.len(),
            views == keys@.map_values(|k: &'static str| k@),
            forall|j: int| 0 <= j < i ==> views[j] != key@,
        decreases keys@.len() - i,
    {
        if same_text(key, keys[i]) {
            assert(views[i as int] == key@);
            return true;
        }
        i += 1;
    }
    false
}

/// Classifies a property key. Prefix matching covers the indexed
/// `list!itemFormat-0` .. `list!itemFormat-8` family and the per-list
/// `list!list-<guid><n>` keys, whose exact semantics are not yet established.
pub fn classify(key: &str) -> (r: PropertyClass)
    ensures
        r == class_of(key@),
{
    let rendered = vec![
        "format!bold",
        "format!italic",
        "style!reference",
        "list!reference",
        "hyperlink!url",
        "nodeType",
    ];
    assert(rendered@.map_values(|k: &'static str| k@) =~= rendered_keys());
    if one_of(key, &rendered) {
        return PropertyClass::Rendered;
    }
    let recognised = vec![
        "markerId",
        "attribution",
        "placeholder!attributeText",
        "list!id",
        "paragraph!textAlignment",
        "paragraph!writingMode",
        "proofing!spellingError",
        "proofing!grammarError",
        "content!locale",
        "content!detectedLocale",
        "component!display",
        "component!height",
        "component!width",
        "component!mimeType",
        "component!routerInput",
        "component!url",
        "component!urlTitle",
        "tab!indentCountLeft",
        "tab!indentCountRight",
        "aria!role",
    ];
    assert(recognised@.map_values(|k: &'static str| k@) =~= recognised_keys());
    if one_of(key, &recognised) {
        return PropertyClass::Recognised;
    }
    if starts_with(key, "list!itemFormat-") || starts_with(key, "list!list-") {
        return PropertyClass::Recognised;
    }
    if is_property_attribution(key) {
        return PropertyClass::Recognised;
    }
    PropertyClass::Unknown
}

/// True for a key that records *who set another property*.
///
/// One page carries `"@hyperlink!url": {"id": "<address>", "name": "<name>",
/// "timestamp": ...}`, alongside the ordinary `hyperlink!url`. The value is an
/// attribution record, not a hyperlink.
///
/// ASSUMPTION, generalised from that single observed key: a leading `@` marks
/// per-property attribution for the property named after it. It is safe either
/// way: the only behaviour that depends on it is treating the value as personal
/// data.
pub fn is_property_attribution(key: &str) -> (r: bool)
    ensures
        r == is_attribution_key(key@),
{
    let cs = chars_of(key);
    cs.len() >= 2 && cs[0] == '@'
}

/// True for a property whose value identifies a person.
///
/// Renderers must omit these unless attribution was explicitly requested. The
/// parser always keeps them: filtering belongs to the output layer, so later
/// analysis stays possible without exposing personal information by default.
pub fn is_personal_data(key: &str) -> (r: bool)
    ensures
        r == is_personal_key(key@),
{
    same_text(key, "attribution") || is_property_attribution(key)
}

/// Whether a key's value identifies a person.
pub open spec fn is_personal_key(key: Seq<char>) -> bool {
    key == "attribution"@ || is_attribution_key(key)
}

/// A segment's property map, preserved whole, in key order.
#[derive(Debug)]
pub struct Properties(pub Vec<(String, Json)>);

impl Clone for Properties {
    fn clone(&self) -> (r: Self)
        ensures
            r.view_props() == self.view_props(),
    {
        Properties(copy_members(&self.0))
    }
}

/// The value under `key`, when this is a string.
pub open spec fn text_of(v: Option<Json>) -> Option<Seq<char>> {
    match v {
        Some(Json::String(s)) => Some(s@),
        _ => None,
    }
}

impl Properties {
    /// No properties.
    pub fn new() -> (r: Self)
        ensures
            r.0@.len() == 0,
    {
        Properties(Vec::new())
    }

    /// The content: each key with the content of its value.
    pub open spec fn view_props(self) -> Seq<(Seq<char>, JsonValue)> {
        view_members(self.0@)
    }

    /// The value under `key`.
    pub open spec fn field(self, key: Seq<char>) -> Option<Json> {
        field_of(self.0@, key)
    }

    pub fn is_empty(&self) -> (r: bool)
        ensures
            r == (self.0@.len() == 0),
    {
        self.0.len() == 0
    }

    /// The keys, in order.
    pub fn keys(&self) -> (r: Vec<String>)
        ensures
            r@.map_values(|k: String| k@) == self.0@.map_values(|e: (String, Json)| e.0@),
    {
        let mut out: Vec<String> = Vec::new();
        let mut i: usize = 0;
        while i < self.0.len()
            invariant
                i <= self.0@.len(),
                out@.len() == i,
                out@.map_values(|k: String| k@) == self.0@.take(i as int).map_values(|e: (String, Json)| e.0@),
            decreases self.0@.len() - i,
        {
            let ghost before = out@;
            assert(self.0@.take(i + 1) =~= self.0@.take(i as int).push(self.0@[i as int]));
            out.push(self.0[i].0.clone());
            assert(out@ =~= before.push(out@[i as int]));
            assert(out@.map_values(|k: String| k@) =~= before.map_values(|k: String| k@).push(self.0@[i as int].0@));
            assert(self.0@.take(i + 1).map_values(|e: (String, Json)| e.0@) =~= self.0@.take(i as int).map_values(
                |e: (String, Json)| e.0@,
            ).push(self.0@[i as int].0@));
            i += 1;
        }
        assert(self.0@.take(i as int) =~= self.0@);
        out
    }

    /// The value under `key`.
    pub fn get(&self, key: &str) -> (r: Option<&Json>)
        ensures
            r matches Some(v) ==> self.field(key@) == Some(*v),
            r is None ==> self.field(key@) is None,
    {
        let mut i: usize = 0;
        assert(self.0@.skip(0) =~= self.0@);
        while i < self.0.len()
            invariant
                i <= self.0@.len(),
                field_of(self.0@, key@) == field_of(self.0@.skip(i as int), key@),
            decreases self.0@.len() - i,
        {
            assert(self.0@.skip(i as int)[0] == self.0@[i as int]);
            assert(self.0@.skip(i as int).drop_first() =~= self.0@.skip(i + 1));
            if same_text(self.0[i].0.as_str(), key) {
                return Some(&self.0[i].1);
            }
            i += 1;
        }
        None
    }

    fn bool_prop(&self, key: &str) -> (r: Option<bool>)
        ensures
            r == (match self.field(key@) {
                Some(Json::Bool(b)) => Some(b),
                _ => None,
            }),
    {
        match self.get(key) {
            Some(v) => v.as_bool(),
            None => None,
        }
    }

    fn str_prop(&self, key: &str) -> (r: Option<&str>)
        ensures
            r matches Some(s) ==> text_of(self.field(key@)) == Some(s@),
            r is None ==> text_of(self.field(key@)) is None,
    {
        match self.get(key) {
            Some(v) => match v.as_str() {
                Some(s) => Some(s.as_str()),
                None => None,
            },
            None => None,
        }
    }

    pub fn bold(&self) -> (r: Option<bool>)
        ensures
            r == (match self.field("format!bold"@) {
                Some(Json::Bool(b)) => Some(b),
                _ => None,
            }),
    {
        self.bool_prop(PROP_BOLD)
    }

    pub fn italic(&self) -> (r: Option<bool>)
        ensures
            r == (match self.field("format!italic"@) {
                Some(Json::Bool(b)) => Some(b),
                _ => None,
            }),
    {
        self.bool_prop(PROP_ITALIC)
    }

    /// Observed values include `"Heading 1"`.
    pub fn style_reference(&self) -> (r: Option<&str>)
        ensures
            r matches Some(s) ==> text_of(self.field("style!reference"@)) == Some(s@),
            r is None ==> text_of(self.field("style!reference"@)) is None,
    {
        self.str_prop(PROP_STYLE_REFERENCE)
    }

    pub fn node_type(&self) -> (r: Option<&str>)
        ensures
            r matches Some(s) ==> text_of(self.field("nodeType"@)) == Some(s@),
            r is None ==> text_of(self.field("nodeType"@)) is None,
    {
        self.str_prop(PROP_NODE_TYPE)
    }

    pub fn marker_id(&self) -> (r: Option<&str>)
        ensures
            r matches Some(s) ==> text_of(self.field("markerId"@)) == Some(s@),
            r is None ==> text_of(self.field("markerId"@)) is None,
    {
        self.str_prop(PROP_MARKER_ID)
    }

    pub fn hyperlink_url(&self) -> (r: Option<&str>)
        ensures
            r matches Some(s) ==> text_of(self.field("hyperlink!url"@)) == Some(s@),
            r is None ==> text_of(self.field("hyperlink!url"@)) is None,
    {
        self.str_prop(PROP_HYPERLINK_URL)
    }

    pub fn placeholder_attribute_text(&self) -> (r: Option<&str>)
        ensures
            r matches Some(s) ==> text_of(self.field("placeholder!attributeText"@)) == Some(s@),
            r is None ==> text_of(self.field("placeholder!attributeText"@)) is None,
    {
        self.str_prop(PROP_PLACEHOLDER_ATTRIBUTE_TEXT)
    }

    /// True when this marker terminates the document title.
    pub fn is_add_title_placeholder(&self) -> (r: bool)
        ensures
            r == (text_of(self.field("placeholder!attributeText"@)) == Some("placeholder!addTitle"@)),
    {
        match self.placeholder_attribute_text() {
            Some(s) => same_text(s, PLACEHOLDER_ADD_TITLE),
            None => false,
        }
    }

    pub fn attribution(&self) -> (r: Option<&Json>)
        ensures
            r matches Some(v) ==> self.field("attribution"@) == Some(*v),
            r is None ==> self.field("attribution"@) is None,
    {
        self.get(PROP_ATTRIBUTION)
    }

    pub fn list_reference(&self) -> (r: Option<ListReference>)
        ensures
            r matches Some(l) ==> text_of(self.field("list!reference"@)) == Some(l.raw@)
                && l.raw@.len() > 0 && l.matches_raw(),
            r is None ==> match text_of(self.field("list!reference"@)) {
                Some(s) => s.len() == 0,
                None => true,
            },
    {
        match self.str_prop(PROP_LIST_REFERENCE) {
            Some(s) => ListReference::parse(s),
            None => None,
        }
    }

    /// Property keys with how well each is understood, in key order.
    pub fn classified_keys(&self) -> (r: Vec<(String, PropertyClass)>)
        ensures
            r@.len() == self.0@.len(),
            forall|i: int| 0 <= i < r@.len() ==> (#[trigger] r@[i]).0@ == self.0@[i].0@ && r@[i].1 == class_of(
                self.0@[i].0@,
            ),
    {
        let mut out: Vec<(String, PropertyClass)> = Vec::new();
        let mut i: usize = 0;
        while i < self.0.len()
            invariant
                i <= self.0@.len(),
                out@.len() == i,
                forall|j: int| 0 <= j < i ==> (#[trigger] out@[j]).0@ == self.0@[j].0@ && out@[j].1 == class_of(
                    self.0@[j].0@,
                ),
            decreases self.0@.len() - i,
        {
            let key = &self.0[i].0;
            out.push((key.clone(), classify(key.as_str())));
            i += 1;
        }
        out
    }
}

/// The value of a run of decimal digits.
pub open spec fn digits_value(d: Seq<char>) -> int
    decreases d.len(),
{
    if d.len() == 0 {
        0
    } else {
        digits_value(d.drop_last()) * 10 + (d.last() as int - '0' as int)
    }
}

/// Whether every character is an ASCII digit.
pub open spec fn all_digits(d: Seq<char>) -> bool {
    forall|i: int| 0 <= i < d.len() ==> '0' <= #[trigger] d[i] <= '9'
}

/// `str::parse::<u32>`: an optional `+`, then one or more ASCII digits whose
/// value fits in a `u32`.
pub open spec fn parse_u32(s: Seq<char>) -> Option<u32> {
    let d = if s.len() > 0 && s[0] == '+' { s.drop_first() } else { s };
    if d.len() > 0 && all_digits(d) && digits_value(d) <= u32::MAX {
        Some(digits_value(d) as u32)
    } else {
        None
    }
}

proof fn lemma_digits_value_nonneg(d: Seq<char>)
    requires
        all_digits(d),
    ensures
        digits_value(d) >= 0,
    decreases d.len(),
{
    if d.len() > 0 {
        assert(all_digits(d.drop_last())) by {
            assert forall|i: int| 0 <= i < d.drop_last().len() implies '0' <= #[trigger] d.drop_last()[i] <= '9' by {
                assert(d.drop_last()[i] == d[i]);
            }
        }
        lemma_digits_value_nonneg(d.drop_last());
    }
}

proof fn lemma_digits_value_grows(d: Seq<char>, c: char)
    requires
        all_digits(d),
        '0' <= c <= '9',
    ensures
        digits_value(d.push(c)) >= digits_value(d),
        all_digits(d.push(c)),
{
    lemma_digits_value_nonneg(d);
    assert(d.push(c).drop_last() =~= d);
    assert forall|i: int| 0 <= i < d.push(c).len() implies '0' <= #[trigger] d.push(c)[i] <= '9' by {
        if i < d.len() {
            assert(d.push(c)[i] == d[i]);
        }
    }
}

/// `str::parse::<u32>`.
pub fn parse_u32_text(s: &[char]) -> (r: Option<u32>)
    ensures
        r == parse_u32(s@),
{
    let mut i: usize = 0;
    if s.len() > 0 && s[0] == '+' {
        i = 1;
    }
    let ghost d = if s@.len() > 0 && s@[0] == '+' { s@.drop_first() } else { s@ };
    assert(d =~= s@.skip(i as int));
    if i >= s.len() {
        return None;
    }
    let mut value: u64 = 0;
    let start = i;
    while i < s.len()
        invariant
            start <= i <= s@.len(),
            d =~= s@.skip(start as int),
            d == (if s@.len() > 0 && s@[0] == '+' { s@.drop_first() } else { s@ }),
            start < s@.len(),
            all_digits(s@.subrange(start as int, i as int)),
            value as int == digits_value(s@.subrange(start as int, i as int)),
            value <= u32::MAX,
        decreases s@.len() - i,
    {
        let c = s[i];
        if !('0' <= c && c <= '9') {
            assert(d[i - start] == c);
            assert(!all_digits(d));
            return None;
        }
        let ghost prefix = s@.subrange(start as int, i as int);
        assert(s@.subrange(start as int, i + 1) =~= prefix.push(c));
        proof { lemma_digits_value_grows(prefix, c); }
        assert(prefix.push(c).drop_last() =~= prefix);
        assert(digits_value(prefix.push(c)) == digits_value(prefix) * 10 + (c as int - '0' as int));
        let digit = (c as u32 - '0' as u32) as u64;
        value = value * 10 + digit;
        i += 1;
        if value > 0xffff_ffffu64 {
            // Every further digit only makes the value larger.
            assert(d.take(i - start) =~= s@.subrange(start as int, i as int));
            proof { lemma_digits_value_prefix_bound(d, (i - start) as int); }
            return None;
        }
    }
    assert(s@.subrange(start as int, i as int) =~= d);
    Some(value as u32)
}

proof fn lemma_digits_value_prefix_bound(d: Seq<char>, n: int)
    requires
        0 <= n <= d.len(),
        all_digits(d.take(n)),
    ensures
        all_digits(d) ==> digits_value(d) >= digits_value(d.take(n)),
    decreases d.len() - n,
{
    if n < d.len() && all_digits(d) {
        assert(d.take(n + 1) =~= d.take(n).push(d[n]));
        lemma_digits_value_grows(d.take(n), d[n]);
        lemma_digits_value_prefix_bound(d, n + 1);
    } else if n == d.len() {
        assert(d.take(n) =~= d);
    }
}

/// A parsed `list!reference` value.
///
/// Values take the form `"<n>;list!list-<guid><m>"`, for example
/// `"1;list!list-<guid>0"`.
///
/// ASSUMPTION, not yet confirmed: the leading integer is the nesting depth and
/// the remainder identifies the list. The trailing digit on the list id is not
/// interpreted.
#[derive(Debug, Clone, PartialEq, Eq)]
pub struct ListReference {
    pub raw: String,
    /// The leading integer, if the value has the observed shape.
    pub depth: Option<u32>,
    /// Everything after the first `;`.
    pub list_id: Option<String>,
}

/// The position of the first `;`.
pub open spec fn first_semicolon(s: Seq<char>) -> Option<int> {
    if exists|i: int| 0 <= i < s.len() && s[i] == ';' {
        Some(choose|i: int| 0 <= i < s.len() && s[i] == ';' && forall|j: int| 0 <= j < i ==> s[j] != ';')
    } else {
        None
    }
}

impl ListReference {
    /// Whether `depth` and `list_id` are what splitting `raw` at its first `;`
    /// gives.
    pub open spec fn matches_raw(self) -> bool {
        let s = self.raw@;
        match first_semicolon(s) {
            Some(i) => self.depth == parse_u32(s.take(i)) && (self.list_id matches Some(t) && t@ == s.skip(i + 1)),
            None => self.depth is None && self.list_id is None,
        }
    }

    /// Splits a non-empty value at its first `;`.
    pub fn parse(raw: &str) -> (r: Option<ListReference>)
        ensures
            raw@.len() == 0 ==> r is None,
            raw@.len() > 0 ==> (r matches Some(l) && l.raw@ == raw@ && l.matches_raw()),
    {
        let cs = chars_of(raw);
        if cs.len() == 0 {
            return None;
        }
        let mut i: usize = 0;
        while i < cs.len() && cs[i] != ';'
            invariant
                i <= cs@.len(),
                cs@ == raw@,
                forall|j: int| 0 <= j < i ==> cs@[j] != ';',
            decreases cs@.len() - i,
        {
            i += 1;
        }
        let owned = string_of(cs.as_slice());
        if i < cs.len() {
            let head = &cs.as_slice()[0..i];
            let tail = string_of(&cs.as_slice()[i + 1..cs.len()]);
            assert(head@ =~= raw@.take(i as int));
            assert(tail@ =~= raw@.skip(i + 1));
            proof {
                let k = choose|k: int| 0 <= k < raw@.len() && raw@[k] == ';' && forall|j: int| 0 <= j < k ==> raw@[j] != ';';
                assert(raw@[i as int] == ';');
                if k < i {
                    assert(cs@[k] != ';');
                } else if k > i {
                    assert(raw@[i as int] != ';');
                }
            }
            Some(ListReference { raw: owned, depth: parse_u32_text(head), list_id: Some(tail) })
        } else {
            Some(ListReference { raw: owned, depth: None, list_id: None })
        }
    }
}

} // verus!
