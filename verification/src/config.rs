//! The parameters of a run.

use vstd::prelude::*;
use crate::Rgb;

verus! {

/// The parameters of a run. The three `*_compare` weights are in
/// thousandths; the mix and tweak factors are in percent.
#[derive(Clone, Debug)]
pub struct Config {
    /// The sixteen reference colors: slots 0 to 7 a gray ramp, slots 8 to 15
    /// chromatic, slot 13 the accent.
    pub template_colors: Vec<Rgb>,
    /// Bits per channel by which pixels are bucketed.
    pub depth: u8,
    /// Least distance between two chromatic slots.
    pub similarity: u16,
    /// Threshold of colorfulness, in percent.
    pub vibrancy: u8,
    /// Largest distance from a slot's reference color at which a candidate
    /// qualifies for the slot.
    pub likeness: u16,
    pub hue_compare: u32,
    pub chroma_compare: u32,
    pub light_compare: u32,
    pub hue_mix: i8,
    pub saturation_mix: i8,
    pub light_mix: i8,
    pub hue_tweak: i8,
    pub saturation_tweak: i8,
    pub light_tweak: i8,
}

/// What makes a configuration unusable.
#[derive(Clone, Copy, Debug, PartialEq, Eq, Structural)]
pub enum ConfigError {
    /// The template does not hold exactly sixteen colors.
    TemplateLength,
    /// The depth is not between 1 and 8.
    Depth,
    /// The vibrancy is not between 1 and 100.
    Vibrancy,
    /// The hue weight is zero.
    HueCompare,
    /// The chroma weight is zero.
    ChromaCompare,
    /// The lightness weight is zero.
    LightCompare,
}

/// The reference colors of the default template.
pub open spec fn default_template() -> Seq<Rgb> {
    seq![
        (34u8, 34u8, 34u8),
        (48u8, 48u8, 48u8),
        (85u8, 85u8, 85u8),
        (137u8, 137u8, 137u8),
        (192u8, 192u8, 192u8),
        (255u8, 255u8, 255u8),
        (255u8, 255u8, 255u8),
        (176u8, 176u8, 176u8),
        (225u8, 93u8, 103u8),
        (252u8, 128u8, 78u8),
        (242u8, 196u8, 43u8),
        (93u8, 177u8, 41u8),
        (33u8, 201u8, 146u8),
        (0u8, 163u8, 242u8),
        (180u8, 110u8, 224u8),
        (184u8, 125u8, 40u8),
    ]
}

impl Config {
    /// The configuration can be used: sixteen reference colors, a depth
    /// between 1 and 8, a vibrancy between 1 and 100, positive weights.
    pub open spec fn wf(&self) -> bool {
        &&& self.template_colors@.len() == 16
        &&& 1 <= self.depth <= 8
        &&& 1 <= self.vibrancy <= 100
        &&& self.hue_compare > 0
        &&& self.chroma_compare > 0
        &&& self.light_compare > 0
    }

    /// The first reason, in the order of `ConfigError`, why the
    /// configuration cannot be used.
    pub open spec fn fault(&self) -> Option<ConfigError> {
        if self.template_colors@.len() != 16 {
            Some(ConfigError::TemplateLength)
        } else if !(1 <= self.depth <= 8) {
            Some(ConfigError::Depth)
        } else if !(1 <= self.vibrancy <= 100) {
            Some(ConfigError::Vibrancy)
        } else if self.hue_compare == 0 {
            Some(ConfigError::HueCompare)
        } else if self.chroma_compare == 0 {
            Some(ConfigError::ChromaCompare)
        } else if self.light_compare == 0 {
            Some(ConfigError::LightCompare)
        } else {
            None
        }
    }

    /// The default configuration.
    pub fn new() -> (config: Config)
        ensures
            config.wf(),
            config.template_colors@ == default_template(),
            config.depth == 2,
            config.similarity == 20,
            config.vibrancy == 15,
            config.likeness == 20,
            config.hue_compare == 750,
            config.chroma_compare == 1000,
            config.light_compare == 1000,
            config.hue_mix == 10,
            config.saturation_mix == 100,
            config.light_mix == 100,
            config.hue_tweak == 0,
            config.saturation_tweak == -1,
            config.light_tweak == 1,
    {
        let mut template: Vec<Rgb> = Vec::new();
        template.push((34, 34, 34));
        template.push((48, 48, 48));
        template.push((85, 85, 85));
        template.push((137, 137, 137));
        template.push((192, 192, 192));
        template.push((255, 255, 255));
        template.push((255, 255, 255));
        template.push((176, 176, 176));
        template.push((225, 93, 103));
        template.push((252, 128, 78));
        template.push((242, 196, 43));
        template.push((93, 177, 41));
        template.push((33, 201, 146));
        template.push((0, 163, 242));
        template.push((180, 110, 224));
        template.push((184, 125, 40));
        proof {
            assert(template@ =~= default_template());
        }
        Config {
            template_colors: template,
            depth: 2,
            similarity: 20,
            vibrancy: 15,
            likeness: 20,
            hue_compare: 750,
            chroma_compare: 1000,
            light_compare: 1000,
            hue_mix: 10,
            saturation_mix: 100,
            light_mix: 100,
            hue_tweak: 0,
            saturation_tweak: -1,
            light_tweak: 1,
        }
    }

    /// Checks the configuration: `Ok` exactly where it can be used, and
    /// otherwise the first reason why not.
    pub fn validate(&self) -> (r: Result<(), ConfigError>)
        ensures
            r.is_ok() == self.wf(),
            r == match self.fault() {
                Some(e) => Err::<(), ConfigError>(e),
                None => Ok(()),
            },
    {
        if self.template_colors.len() != 16 {
            Err(ConfigError::TemplateLength)
        } else if self.depth < 1 || self.depth > 8 {
            Err(ConfigError::Depth)
        } else if self.vibrancy < 1 || self.vibrancy > 100 {
            Err(ConfigError::Vibrancy)
        } else if self.hue_compare == 0 {
            Err(ConfigError::HueCompare)
        } else if self.chroma_compare == 0 {
            Err(ConfigError::ChromaCompare)
        } else if self.light_compare == 0 {
            Err(ConfigError::LightCompare)
        } else {
            Ok(())
        }
    }
}

} // verus!
