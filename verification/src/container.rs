//! Deciding whether a file is a Loop/Fluid container, and what produced it.
//!
//! Searching for identifiers such as `Microsoft.Prague` was checked against the
//! whole corpus and rejected: it occurs zero times in all 13 files, spanning
//! Oct 2023 to Sep 2026.
//!
//! Identification is therefore structural, with component identity reported as
//! supporting evidence rather than required. A missing or unknown component
//! never fails the file. Nor does the filename extension ever count as evidence.

use vstd::prelude::*;
use crate::discovery::PayloadCandidate;
use crate::json::{Json, JsonValue};
use crate::order::{SortKey, stable_sort_by, sort_stable, key_order, lemma_stable_sort_map};
use crate::text::{chars_less, text_less, same_text};
use crate::operations::log::opt_chars;

verus! {

/// Component names observed across the corpus.
///
/// `@fluidx/loop-page-container` is written by Loop from late 2024 onwards.
/// `@ms/office-fluid-container` is written by the older `.fluid` files and by
/// an older `.loop` page from Oct 2023. Both identify a genuine Loop/Fluid page.
pub const LOOP_PAGE_CONTAINER: &'static str = "@fluidx/loop-page-container";
pub const OFFICE_FLUID_CONTAINER: &'static str = "@ms/office-fluid-container";

/// Whether a component name is one of the known Loop/Fluid page components.
pub open spec fn is_known_component(name: Seq<char>) -> bool {
    name == "@fluidx/loop-page-container"@ || name == "@ms/office-fluid-container"@
}

/// The known component names, in reporting order.
pub fn known_components() -> (r: Vec<&'static str>)
    ensures
        r@.len() == 2,
        r@[0]@ == "@fluidx/loop-page-container"@,
        r@[1]@ == "@ms/office-fluid-container"@,
{
    vec![LOOP_PAGE_CONTAINER, OFFICE_FLUID_CONTAINER]
}

/// Whether a component name is one of the known Loop/Fluid page components.
pub fn known_component(name: &str) -> (r: bool)
    ensures
        r == is_known_component(name@),
{
    same_text(name, LOOP_PAGE_CONTAINER) || same_text(name, OFFICE_FLUID_CONTAINER)
}

/// A component name and build version read from a package record.
#[derive(Debug)]
pub struct ComponentIdentity {
    pub name: String,
    pub version: Option<String>,
}

/// The content of a component identity.
pub open spec fn identity_view(c: ComponentIdentity) -> (Seq<char>, Option<Seq<char>>) {
    (c.name@, opt_chars(c.version))
}

impl Clone for ComponentIdentity {
    fn clone(&self) -> (r: Self)
        ensures
            identity_view(r) == identity_view(*self),
    {
        ComponentIdentity {
            name: self.name.clone(),
            version: match &self.version {
                Some(v) => Some(v.clone()),
                None => None,
            },
        }
    }
}

/// How sure the assessment is.
#[derive(Debug, Clone, Copy, PartialEq, Eq, Structural)]
pub enum Confidence {
    High,
    Moderate,
    Low,
    NoneFound,
}

impl Confidence {
    /// The name used in reports.
    pub fn name(self) -> (r: &'static str)
        ensures
            r@ == (match self {
                Confidence::High => "High"@,
                Confidence::Moderate => "Moderate"@,
                Confidence::Low => "Low"@,
                Confidence::NoneFound => "None"@,
            }),
    {
        match self {
            Confidence::High => "High",
            Confidence::Moderate => "Moderate",
            Confidence::Low => "Low",
            Confidence::NoneFound => "None",
        }
    }
}

/// What a file appears to be.
#[derive(Debug)]
pub struct FormatAssessment {
    /// Human-readable format label.
    pub format: String,
    pub components: Vec<ComponentIdentity>,
    pub confidence: Confidence,
}

/// The contents of component identities.
pub open spec fn identity_views(s: Seq<ComponentIdentity>) -> Seq<(Seq<char>, Option<Seq<char>>)> {
    s.map_values(|c: ComponentIdentity| identity_view(c))
}

/// Whether some component has a known name.
pub open spec fn any_known(s: Seq<(Seq<char>, Option<Seq<char>>)>) -> bool {
    exists|i: int| 0 <= i < s.len() && is_known_component(#[trigger] s[i].0)
}

impl FormatAssessment {
    /// True when the file carries a recognised Loop/Fluid component.
    pub fn is_known_loop_component(&self) -> (r: bool)
        ensures
            r == any_known(identity_views(self.components@)),
    {
        let ghost v = identity_views(self.components@);
        let mut i: usize = 0;
        while i < self.components.len()
            invariant
                i <= self.components@.len(),
                v == identity_views(self.components@),
                forall|k: int| 0 <= k < i ==> !is_known_component(#[trigger] v[k].0),
            decreases self.components@.len() - i,
        {
            if known_component(self.components[i].name.as_str()) {
                assert(is_known_component(v[i as int].0));
                return true;
            }
            i += 1;
        }
        false
    }

    /// A copy of the assessment.
    pub fn copy(&self) -> (r: FormatAssessment)
        ensures
            r.format@ == self.format@,
            identity_views(r.components@) == identity_views(self.components@),
            r.confidence == self.confidence,
    {
        let mut components: Vec<ComponentIdentity> = Vec::new();
        let mut i: usize = 0;
        while i < self.components.len()
            invariant
                i <= self.components@.len(),
                components@.len() == i,
                forall|k: int| 0 <= k < i ==> identity_view(#[trigger] components@[k]) == identity_view(self.components@[k]),
            decreases self.components@.len() - i,
        {
            components.push(self.components[i].clone());
            i += 1;
        }
        assert(identity_views(components@) =~= identity_views(self.components@));
        FormatAssessment { format: self.format.clone(), components, confidence: self.confidence }
    }
}

/// The identity a payload carries: `package.name` as a string, with
/// `package.version` when that is a string too.
pub open spec fn package_identity(value: JsonValue) -> Option<(Seq<char>, Option<Seq<char>>)> {
    match value.field("package"@) {
        Some(package) => match package.text_field("name"@) {
            Some(name) => Some((name, package.text_field("version"@))),
            None => None,
        },
        None => None,
    }
}

/// The identities of payloads, each distinct one once, in the order first
/// seen.
pub open spec fn identities_seen(values: Seq<JsonValue>) -> Seq<(Seq<char>, Option<Seq<char>>)>
    decreases values.len(),
{
    if values.len() == 0 {
        Seq::empty()
    } else {
        let found = identities_seen(values.drop_last());
        match package_identity(values.last()) {
            Some(id) => if found.contains(id) { found } else { found.push(id) },
            None => found,
        }
    }
}

/// `a <= b` for optional versions, `None` first.
pub open spec fn version_le(a: Option<Seq<char>>, b: Option<Seq<char>>) -> bool {
    match (a, b) {
        (None, _) => true,
        (Some(_), None) => false,
        (Some(x), Some(y)) => !chars_less(y, x),
    }
}

/// Identities by name, then by version.
pub open spec fn identity_le(a: (Seq<char>, Option<Seq<char>>), b: (Seq<char>, Option<Seq<char>>)) -> bool {
    chars_less(a.0, b.0) || (a.0 == b.0 && version_le(a.1, b.1))
}

/// The identity order.
pub open spec fn identity_order() -> spec_fn((Seq<char>, Option<Seq<char>>), (Seq<char>, Option<Seq<char>>)) -> bool {
    |a: (Seq<char>, Option<Seq<char>>), b: (Seq<char>, Option<Seq<char>>)| identity_le(a, b)
}

impl SortKey for ComponentIdentity {
    open spec fn key_le(&self, other: &Self) -> bool {
        identity_le(identity_view(*self), identity_view(*other))
    }

    fn sorts_before(&self, other: &Self) -> (r: bool) {
        if text_less(self.name.as_str(), other.name.as_str()) {
            return true;
        }
        if !same_text(self.name.as_str(), other.name.as_str()) {
            return false;
        }
        match (&self.version, &other.version) {
            (None, _) => true,
            (Some(_), None) => false,
            (Some(x), Some(y)) => !text_less(y.as_str(), x.as_str()),
        }
    }
}

/// The values of payloads, in order.
pub open spec fn payload_values(payloads: Seq<PayloadCandidate>) -> Seq<JsonValue> {
    payloads.map_values(|p: PayloadCandidate| p.value@)
}

/// Whether two optional strings hold the same text.
fn same_version(a: &Option<String>, b: &Option<String>) -> (r: bool)
    ensures
        r == (opt_chars(*a) == opt_chars(*b)),
{
    match (a, b) {
        (Some(x), Some(y)) => same_text(x.as_str(), y.as_str()),
        (None, None) => true,
        _ => false,
    }
}

/// Extracts component identity from payloads discovered by the `"package"`
/// anchor: `{"package":{"name":"@fluidx/loop-page-container","version":"0.0.1", ...}}`.
/// Each distinct identity is reported once, sorted by name, then version.
///
/// The version is a build identifier, not semantic: values `0.0.1` and
/// `20250129024` both occur in the corpus.
pub fn components(payloads: &[PayloadCandidate]) -> (r: Vec<ComponentIdentity>)
    ensures
        identity_views(r@) == stable_sort_by(identities_seen(payload_values(payloads@)), identity_order()),
{
    let ghost values = payload_values(payloads@);
    let mut found: Vec<ComponentIdentity> = Vec::new();
    let mut i: usize = 0;
    assert(values.take(0) =~= Seq::<JsonValue>::empty());
    assert(identity_views(found@) =~= Seq::<(Seq<char>, Option<Seq<char>>)>::empty());
    while i < payloads.len()
        invariant
            i <= payloads@.len(),
            values == payload_values(payloads@),
            identity_views(found@) == identities_seen(values.take(i as int)),
        decreases payloads@.len() - i,
    {
        assert(values.take(i + 1).drop_last() =~= values.take(i as int));
        assert(values.take(i + 1).last() == payloads@[i as int].value@);
        let value = &payloads[i].value;
        let package = match value.get("package") {
            Some(p) => p,
            None => {
                i += 1;
                continue;
            },
        };
        let name = match package.get("name") {
            Some(n) => match n.as_str() {
                Some(s) => s,
                None => {
                    i += 1;
                    continue;
                },
            },
            None => {
                i += 1;
                continue;
            },
        };
        let version: Option<String> = match package.get("version") {
            Some(v) => match v.as_str() {
                Some(s) => Some(s.clone()),
                None => None,
            },
            None => None,
        };
        let ghost id = (name@, opt_chars(version));
        let ghost fv = identity_views(found@);
        let mut k: usize = 0;
        let mut seen = false;
        while k < found.len()
            invariant
                k <= found@.len(),
                fv == identity_views(found@),
                id == (name@, opt_chars(version)),
                seen ==> fv.contains(id),
                !seen ==> forall|j: int| 0 <= j < k ==> fv[j] != id,
            decreases found@.len() - k,
        {
            assert(fv[k as int] == identity_view(found@[k as int]));
            if same_text(found[k].name.as_str(), name.as_str()) && same_version(&found[k].version, &version) {
                assert(fv[k as int] == id);
                seen = true;
            }
            k += 1;
        }
        if !seen {
            let ghost before = found@;
            found.push(ComponentIdentity { name: name.clone(), version });
            assert(identity_views(found@) =~= fv.push(id));
        }
        i += 1;
    }
    assert(values.take(i as int) =~= values);
    proof {
        let f = |c: ComponentIdentity| identity_view(c);
        assert forall|a1: ComponentIdentity, a2: ComponentIdentity| #[trigger] key_order::<ComponentIdentity>()(a1, a2)
            == identity_order()(f(a1), f(a2)) by {}
        lemma_stable_sort_map(found@, f, key_order::<ComponentIdentity>(), identity_order());
        assert(found@.map_values(f) =~= identity_views(found@));
    }
    let sorted = sort_stable(found);
    assert(identity_views(sorted@) =~= sorted@.map_values(|c: ComponentIdentity| identity_view(c)));
    sorted
}

/// The label and confidence the evidence gives.
pub open spec fn assessment_of(inflated_members: usize, json_payloads: usize, merge_tree_chunks: usize, known: bool) -> (Seq<char>, Confidence) {
    let structural = inflated_members > 0 && json_payloads > 0;
    let strong = structural && merge_tree_chunks > 0;
    if strong && known {
        ("Microsoft Loop / Fluid snapshot (probable)"@, Confidence::High)
    } else if strong {
        ("Fluid-compatible snapshot"@, Confidence::Moderate)
    } else if structural && known {
        ("Microsoft Loop container, no document content found"@, Confidence::Moderate)
    } else if structural {
        ("Fluid-compatible container, no document content found"@, Confidence::Low)
    } else {
        ("Unrecognised: no Fluid snapshot structure found"@, Confidence::NoneFound)
    }
}

/// Assesses format from structural evidence plus component identity.
///
/// * gzip members that inflate, and embedded JSON payloads, are structural
///   evidence of a Fluid snapshot container;
/// * merge-tree chunks raise that to strong structural evidence;
/// * a recognised component name raises confidence to high.
pub fn assess(
    inflated_members: usize,
    json_payloads: usize,
    merge_tree_chunks: usize,
    components: Vec<ComponentIdentity>,
) -> (r: FormatAssessment)
    ensures
        (r.format@, r.confidence) == assessment_of(
            inflated_members,
            json_payloads,
            merge_tree_chunks,
            any_known(identity_views(components@)),
        ),
        identity_views(r.components@) == identity_views(components@),
{
    let structural = inflated_members > 0 && json_payloads > 0;
    let strong = structural && merge_tree_chunks > 0;
    let probe = FormatAssessment { format: String::new(), components, confidence: Confidence::NoneFound };
    let known = probe.is_known_loop_component();
    let (format, confidence) = if strong && known {
        ("Microsoft Loop / Fluid snapshot (probable)", Confidence::High)
    } else if strong {
        ("Fluid-compatible snapshot", Confidence::Moderate)
    } else if structural && known {
        ("Microsoft Loop container, no document content found", Confidence::Moderate)
    } else if structural {
        ("Fluid-compatible container, no document content found", Confidence::Low)
    } else {
        ("Unrecognised: no Fluid snapshot structure found", Confidence::NoneFound)
    };
    FormatAssessment { format: String::from_str(format), components: probe.components, confidence }
}

} // verus!
