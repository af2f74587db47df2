//! What the railway profile keeps of a way's tags.

use crate::text::str_eq;
use vstd::prelude::*;

verus! {

/// The railway properties of a way: whether it carries a `railway` tag of an
/// allowed kind, that kind, and its `usage` and `service` tags.
#[derive(Clone, Debug)]
pub struct EdgeProperties {
    pub has_railway_tag: bool,
    pub railway_type: String,
    pub usage: String,
    pub service: String,
}

/// The railway properties as plain values.
pub struct RailwayTags {
    pub has_railway_tag: bool,
    pub railway_type: Seq<char>,
    pub usage: Seq<char>,
    pub service: Seq<char>,
}

/// Whether `val` is a kind of railway that the profile keeps.
pub open spec fn is_allowed_railway_type(val: Seq<char>) -> bool {
    ||| val == "light_rail"@
    ||| val == "monorail"@
    ||| val == "narrow_gauge"@
    ||| val == "rail"@
    ||| val == "subway"@
    ||| val == "tram"@
}

impl RailwayTags {
    /// The properties of a way without tags.
    pub open spec fn empty() -> RailwayTags {
        RailwayTags {
            has_railway_tag: false,
            railway_type: Seq::empty(),
            usage: Seq::empty(),
            service: Seq::empty(),
        }
    }

    /// The properties after one more tag has been read.
    pub open spec fn updated(self, key: Seq<char>, val: Seq<char>) -> RailwayTags {
        if key == "railway"@ {
            if is_allowed_railway_type(val) {
                RailwayTags { has_railway_tag: true, railway_type: val, ..self }
            } else {
                self
            }
        } else if key == "usage"@ {
            RailwayTags { usage: val, ..self }
        } else if key == "service"@ {
            RailwayTags { service: val, ..self }
        } else {
            self
        }
    }
}

impl View for EdgeProperties {
    type V = RailwayTags;

    open spec fn view(&self) -> RailwayTags {
        RailwayTags {
            has_railway_tag: self.has_railway_tag,
            railway_type: self.railway_type@,
            usage: self.usage@,
            service: self.service@,
        }
    }
}

impl Default for EdgeProperties {
    fn default() -> (properties: EdgeProperties)
        ensures
            properties@ == RailwayTags::empty(),
    {
        EdgeProperties {
            has_railway_tag: false,
            railway_type: String::new(),
            usage: String::new(),
            service: String::new(),
        }
    }
}

/// Whether `val` is a kind of railway that the profile keeps.
fn allowed_railway_type(val: &str) -> (allowed: bool)
    ensures
        allowed == is_allowed_railway_type(val@),
{
    str_eq(val, "light_rail") || str_eq(val, "monorail") || str_eq(val, "narrow_gauge") || str_eq(
        val,
        "rail",
    ) || str_eq(val, "subway") || str_eq(val, "tram")
}

impl EdgeProperties {
    /// Reads one more tag of the way.
    pub fn update(&mut self, key_string: String, val_string: String)
        ensures
            final(self)@ == old(self)@.updated(key_string@, val_string@),
    {
        let key = key_string.as_str();
        let val = val_string.as_str();
        self.update_with_str(key, val);
    }

    /// Reads one more tag of the way: a `railway` tag of an allowed kind
    /// marks the way and sets its kind; `usage` and `service` are copied;
    /// any other tag changes nothing.
    pub fn update_with_str(&mut self, key: &str, val: &str)
        ensures
            final(self)@ == old(self)@.updated(key@, val@),
    {
        if str_eq(key, "railway") {
            if allowed_railway_type(val) {
                self.has_railway_tag = true;
                self.railway_type = val.to_owned();
            }
        } else if str_eq(key, "usage") {
            self.usage = val.to_owned();
        } else if str_eq(key, "service") {
            self.service = val.to_owned();
        }
    }

    /// A copy of the properties.
    pub fn duplicate(&self) -> (copy: EdgeProperties)
        ensures
            copy@ == self@,
    {
        EdgeProperties {
            has_railway_tag: self.has_railway_tag,
            railway_type: self.railway_type.clone(),
            usage: self.usage.clone(),
            service: self.service.clone(),
        }
    }
}

} // verus!
