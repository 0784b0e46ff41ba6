//! What a plugin tells its host about itself and its parameters.
use crate::single::Single;
use vstd::prelude::*;

verus! {

/// What a plugin does with its input.
#[derive(Clone, Copy, Debug, PartialEq, Eq, Structural)]
pub enum PluginType {
    Effect,
    Source,
}

/// Who a plugin is.
#[derive(Clone, Copy, Debug)]
pub struct PluginInfo {
    pub unique_id: [u8; 4],
    pub name: [u8; 16],
    pub ty: PluginType,
    pub about: &'static str,
    pub description: &'static str,
}

/// How the host shows a parameter.
#[derive(Clone, Copy, Debug, PartialEq, Eq, Structural)]
pub enum ParameterTypes {
    Event,
    Boolean,
    Standard,
    Integer,
    Choice,
    Hue,
    Saturation,
    Brightness,
    Alpha,
}

/// A parameter: its name, kind and default, its range where it is not the unit range,
/// and for a choice the names of its values.
#[derive(Clone, Copy, Debug)]
pub struct ParamInfo {
    pub name: &'static str,
    pub param_type: ParameterTypes,
    pub default: Option<Single>,
    pub min: Option<Single>,
    pub max: Option<Single>,
    pub elements: Option<[(&'static str, Single); 2]>,
}

/// What a parameter is, with the names and the values of a choice.
pub struct Parameter {
    pub name: Seq<char>,
    pub param_type: ParameterTypes,
    pub default: Option<Single>,
    pub min: Option<Single>,
    pub max: Option<Single>,
    pub elements: Option<Seq<(Seq<char>, Single)>>,
}

impl View for ParamInfo {
    type V = Parameter;

    open spec fn view(&self) -> Parameter {
        Parameter {
            name: self.name@,
            param_type: self.param_type,
            default: self.default,
            min: self.min,
            max: self.max,
            elements: match self.elements {
                Some(e) => Some(seq![(e[0].0@, e[0].1), (e[1].0@, e[1].1)]),
                None => None,
            },
        }
    }
}

/// A parameter over the unit range.
pub open spec fn unit_range(
    name: Seq<char>,
    param_type: ParameterTypes,
    default: Option<Single>,
) -> Parameter {
    Parameter { name, param_type, default, min: None, max: None, elements: None }
}

/// A whole-number parameter.
pub open spec fn whole_range(name: Seq<char>, default: u32, min: u32, max: u32) -> Parameter {
    Parameter {
        name,
        param_type: ParameterTypes::Integer,
        default: Some(Single { bits: default }),
        min: Some(Single { bits: min }),
        max: Some(Single { bits: max }),
        elements: None,
    }
}

pub fn unit_param(
    name: &'static str,
    param_type: ParameterTypes,
    default: Option<Single>,
) -> (p: ParamInfo)
    ensures
        p@ == unit_range(name@, param_type, default),
{
    ParamInfo { name, param_type, default, min: None, max: None, elements: None }
}

pub fn whole_param(name: &'static str, default: u32, min: u32, max: u32) -> (p: ParamInfo)
    ensures
        p@ == whole_range(name@, default, min, max),
{
    ParamInfo {
        name,
        param_type: ParameterTypes::Integer,
        default: Some(Single { bits: default }),
        min: Some(Single { bits: min }),
        max: Some(Single { bits: max }),
        elements: None,
    }
}

} // verus!
