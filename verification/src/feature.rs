use vstd::prelude::*;
use vstd::string::StringExecFns;
use crate::boundary::{as_polygon, boundary_ring, Area, Dataset, Objects};
use crate::error::Error;
use crate::line::Line;
use crate::position::Position;
use crate::tags::Tags;

verus! {

/// Why an area could not be turned into a feature.
#[derive(Clone, Copy, Debug, PartialEq, Eq, Structural)]
pub enum FeatureError {
    /// The area has no `name` tag.
    MissingName,
    /// The area has no `admin_level` tag.
    MissingAdminLevel,
    /// The area has no `de:regionalschluessel` tag.
    MissingRegionalKey,
    /// The `admin_level` tag is no number from 0 to 255.
    InvalidAdminLevel,
    /// The outer ring could not be built.
    Boundary(Error),
}

impl FeatureError {
    /// The cause in words.
    pub open spec fn text(self) -> Seq<char> {
        match self {
            FeatureError::MissingName => "'name' is missing"@,
            FeatureError::MissingAdminLevel => "'admin_level' is missing"@,
            FeatureError::MissingRegionalKey => "'de:regionalschluessel' is missing"@,
            FeatureError::InvalidAdminLevel => "'admin_level' is no number from 0 to 255"@,
            FeatureError::Boundary(cause) => cause.text(),
        }
    }

    /// The cause in words, for a report.
    pub fn message(&self) -> (words: &'static str)
        ensures
            words@ == self.text(),
    {
        match self {
            FeatureError::MissingName => "'name' is missing",
            FeatureError::MissingAdminLevel => "'admin_level' is missing",
            FeatureError::MissingRegionalKey => "'de:regionalschluessel' is missing",
            FeatureError::InvalidAdminLevel => "'admin_level' is no number from 0 to 255",
            FeatureError::Boundary(cause) => cause.message(),
        }
    }
}

/// The model of a feature's properties.
pub ghost struct PropertiesModel {
    /// The name, after its prefix where it has one.
    pub name: Seq<char>,
    /// The administrative level.
    pub admin_level: u8,
    /// The regional key.
    pub ars: Seq<char>,
}

/// What a feature says of its area besides the geometry.
#[derive(Debug, PartialEq, Eq)]
pub struct Properties {
    /// The name, after its prefix where it has one.
    pub name: String,
    /// The administrative level.
    pub admin_level: u8,
    /// The regional key.
    pub ars: String,
}

impl View for Properties {
    type V = PropertiesModel;

    open spec fn view(&self) -> PropertiesModel {
        PropertiesModel { name: self.name@, admin_level: self.admin_level, ars: self.ars@ }
    }
}

/// One area as it is handed on for output: its identifier, its properties
/// and its outer ring.
#[derive(Debug, PartialEq, Eq)]
pub struct Feature {
    /// The identifier of the area.
    pub id: i64,
    /// The properties read from the area's tags.
    pub properties: Properties,
    /// The outer ring, closed and wound counter-clockwise.
    pub ring: Line,
}

/// The number that a run of decimal digits stands for.
pub open spec fn decimal_value(digits: Seq<char>) -> nat
    decreases digits.len(),
{
    if digits.len() == 0 {
        0
    } else {
        (decimal_value(digits.drop_last()) * 10 + (digits.last() as u32 - 48)) as nat
    }
}

/// Whether `digits` is a run of one or more of the characters `0` to `9`.
pub open spec fn is_decimal(digits: Seq<char>) -> bool {
    &&& digits.len() > 0
    &&& forall|i: int| 0 <= i < digits.len() ==> 48 <= (#[trigger] digits[i]) as u32 <= 57
}

/// The number from 0 to 255 that `text` is the decimal form of: a run of
/// digits, after a plus sign or not, that stands for a number in that range.
pub open spec fn parsed_level(text: Seq<char>) -> Option<u8> {
    let digits = if text.len() > 0 && text[0] == '+' {
        text.skip(1)
    } else {
        text
    };
    if is_decimal(digits) && decimal_value(digits) <= 255 {
        Some(decimal_value(digits) as u8)
    } else {
        None
    }
}

/// The name under which an area with these tags is listed: its name, after
/// its prefix and a space where it has a prefix.
pub open spec fn listed_name(tags: Map<Seq<char>, Seq<char>>) -> Seq<char> {
    if tags.contains_key("name:prefix"@) {
        tags["name:prefix"@].push(' ') + tags["name"@]
    } else {
        tags["name"@]
    }
}

/// The properties of an area with these tags, or the first thing that is
/// wrong with the tags.
pub open spec fn properties_of(tags: Map<Seq<char>, Seq<char>>) -> Result<
    PropertiesModel,
    FeatureError,
> {
    if !tags.contains_key("name"@) {
        Err(FeatureError::MissingName)
    } else if !tags.contains_key("admin_level"@) {
        Err(FeatureError::MissingAdminLevel)
    } else if !tags.contains_key("de:regionalschluessel"@) {
        Err(FeatureError::MissingRegionalKey)
    } else {
        match parsed_level(tags["admin_level"@]) {
            None => Err(FeatureError::InvalidAdminLevel),
            Some(level) => Ok(
                PropertiesModel {
                    name: listed_name(tags),
                    admin_level: level,
                    ars: tags["de:regionalschluessel"@],
                },
            ),
        }
    }
}

/// `str::parse::<u8>` of std. Assumed, not proved: it gives the number from
/// 0 to 255 that `text` is the decimal form of, where std accepts one or more
/// decimal digits, after a plus sign or not, and nothing else: no minus sign,
/// no blank, no underscore.
#[verifier::external_body]
fn parse_level(text: &str) -> (level: Option<u8>)
    ensures
        level == parsed_level(text@),
{
    text.parse::<u8>().ok()
}

/// The text `prefix`, a space, and `name`.
fn prefixed(prefix: &str, name: &str) -> (whole: String)
    ensures
        whole@ == prefix@.push(' ') + name@,
{
    let mut whole = prefix.to_owned();
    whole.append(" ");
    whole.append(name);
    proof {
        reveal_strlit(" ");
        assert(" "@ =~= seq![' ']);
        assert(prefix@ + seq![' '] =~= prefix@.push(' '));
    }
    whole
}

/// Reads the properties of a feature from the tags of its area.
pub fn properties(tags: &Tags) -> (r: Result<Properties, FeatureError>)
    ensures
        match r {
            Ok(found) => properties_of(tags@) == Ok::<PropertiesModel, FeatureError>(found@),
            Err(e) => properties_of(tags@) == Err::<PropertiesModel, FeatureError>(e),
        },
{
    let plain = match tags.get("name") {
        Some(name) => name,
        None => {
            return Err(FeatureError::MissingName);
        },
    };
    let name = match tags.get("name:prefix") {
        Some(prefix) => prefixed(prefix.as_str(), plain.as_str()),
        None => plain.clone(),
    };
    let level = match tags.get("admin_level") {
        Some(level) => level,
        None => {
            return Err(FeatureError::MissingAdminLevel);
        },
    };
    let ars = match tags.get("de:regionalschluessel") {
        Some(ars) => ars.clone(),
        None => {
            return Err(FeatureError::MissingRegionalKey);
        },
    };
    match parse_level(level.as_str()) {
        Some(admin_level) => Ok(Properties { name, admin_level, ars }),
        None => Err(FeatureError::InvalidAdminLevel),
    }
}

/// The feature of an area: what is wrong with its tags, else what is wrong
/// with its boundary, else its properties and its outer ring.
pub open spec fn feature_of(objects: Objects, area: Area) -> Result<
    (PropertiesModel, Seq<Position>),
    FeatureError,
> {
    match properties_of(area.tags@) {
        Err(e) => Err(e),
        Ok(found) => match boundary_ring(objects, area.members@) {
            Err(e) => Err(FeatureError::Boundary(e)),
            Ok(ring) => Ok((found, ring)),
        },
    }
}

/// Builds the feature of `area` from its tags and from the objects in
/// `data`.
pub fn to_feature(area: &Area, data: &Dataset) -> (r: Result<Feature, FeatureError>)
    ensures
        match r {
            Ok(feature) => feature.id == area.id && feature_of(data@, *area) == Ok::<
                (PropertiesModel, Seq<Position>),
                FeatureError,
            >((feature.properties@, feature.ring@)),
            Err(e) => feature_of(data@, *area) == Err::<
                (PropertiesModel, Seq<Position>),
                FeatureError,
            >(e),
        },
{
    let found = match properties(&area.tags) {
        Ok(found) => found,
        Err(e) => {
            return Err(e);
        },
    };
    match as_polygon(area, data) {
        Ok(ring) => Ok(Feature { id: area.id, properties: found, ring }),
        Err(e) => Err(FeatureError::Boundary(e)),
    }
}

/// Builds the feature of every area in `areas`.
///
/// Each area has its own outcome, in the place of the area: the failure of
/// one area leaves the outcomes of all others as they are.
pub fn features(areas: &[Area], data: &Dataset) -> (outcomes: Vec<Result<Feature, FeatureError>>)
    ensures
        outcomes@.len() == areas@.len(),
        forall|i: int|
            0 <= i < areas@.len() ==> match #[trigger] outcomes@[i] {
                Ok(feature) => feature.id == areas@[i].id && feature_of(data@, areas@[i]) == Ok::<
                    (PropertiesModel, Seq<Position>),
                    FeatureError,
                >((feature.properties@, feature.ring@)),
                Err(e) => feature_of(data@, areas@[i]) == Err::<
                    (PropertiesModel, Seq<Position>),
                    FeatureError,
                >(e),
            },
{
    let mut outcomes: Vec<Result<Feature, FeatureError>> = Vec::new();
    let mut i: usize = 0;
    while i < areas.len()
        invariant
            i <= areas.len(),
            outcomes@.len() == i,
            forall|j: int|
                0 <= j < i ==> match #[trigger] outcomes@[j] {
                    Ok(feature) => feature.id == areas@[j].id && feature_of(data@, areas@[j])
                        == Ok::<(PropertiesModel, Seq<Position>), FeatureError>(
                        (feature.properties@, feature.ring@),
                    ),
                    Err(e) => feature_of(data@, areas@[j]) == Err::<
                        (PropertiesModel, Seq<Position>),
                        FeatureError,
                    >(e),
                },
        decreases areas.len() - i,
    {
        let r = to_feature(&areas[i], data);
        outcomes.push(r);
        i += 1;
    }
    outcomes
}

} // verus!
