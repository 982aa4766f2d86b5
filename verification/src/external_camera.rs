//! Exposure settings of the external camera, a hand-held camera that faces the
//! calibration board.

use vstd::prelude::*;

verus! {

/// ISO sensitivity.
#[derive(Clone, Copy, Debug, PartialEq, Eq, Structural)]
pub enum IsoValue {
    Auto,
    Iso100,
    Iso200,
    Iso400,
    Iso800,
    Iso1600,
    Iso3200,
    Iso6400,
}

/// Aperture, as ten times the f-number.
#[derive(Clone, Copy, Debug, PartialEq, Eq, Structural)]
pub enum ApertureValue {
    /// f/2.8
    F28,
    /// f/4.0
    F40,
    /// f/5.6
    F56,
    /// f/8.0
    F80,
    /// f/11.0
    F110,
    /// f/16.0
    F160,
}

/// Who chooses aperture and shutter speed.
#[derive(Clone, Copy, Debug, PartialEq, Eq, Structural)]
pub enum ExposureMode {
    /// Program AE
    ProgramAE,
    /// Shutter-priority AE (Tv)
    ShutterPriority,
    /// Aperture-priority AE (Av)
    AperturePriority,
    /// Manual exposure (M)
    Manual,
    /// Bulb
    Bulb,
    /// Full auto
    FullAuto,
}

/// Shutter speed, as the reciprocal of the exposure time in seconds.
#[derive(Clone, Copy, Debug, PartialEq, Eq, Structural)]
pub enum ShutterSpeed {
    /// 1/30
    S30,
    /// 1/60
    S60,
    /// 1/125
    S125,
    /// 1/250
    S250,
    /// 1/500
    S500,
    /// 1/1000
    S1000,
}

impl IsoValue {
    /// The number that the setting is known by.
    pub fn value(self) -> (r: u32)
        ensures
            r == match self {
                IsoValue::Auto => 0u32,
                IsoValue::Iso100 => 100,
                IsoValue::Iso200 => 200,
                IsoValue::Iso400 => 400,
                IsoValue::Iso800 => 800,
                IsoValue::Iso1600 => 1600,
                IsoValue::Iso3200 => 3200,
                IsoValue::Iso6400 => 6400,
            },
    {
        match self {
            IsoValue::Auto => 0,
            IsoValue::Iso100 => 100,
            IsoValue::Iso200 => 200,
            IsoValue::Iso400 => 400,
            IsoValue::Iso800 => 800,
            IsoValue::Iso1600 => 1600,
            IsoValue::Iso3200 => 3200,
            IsoValue::Iso6400 => 6400,
        }
    }
}

impl ApertureValue {
    /// The number that the setting is known by.
    pub fn value(self) -> (r: u32)
        ensures
            r == match self {
                ApertureValue::F28 => 28u32,
                ApertureValue::F40 => 40,
                ApertureValue::F56 => 56,
                ApertureValue::F80 => 80,
                ApertureValue::F110 => 110,
                ApertureValue::F160 => 160,
            },
    {
        match self {
            ApertureValue::F28 => 28,
            ApertureValue::F40 => 40,
            ApertureValue::F56 => 56,
            ApertureValue::F80 => 80,
            ApertureValue::F110 => 110,
            ApertureValue::F160 => 160,
        }
    }
}

impl ExposureMode {
    /// The number that the setting is known by.
    pub fn value(self) -> (r: u32)
        ensures
            r == match self {
                ExposureMode::ProgramAE => 0u32,
                ExposureMode::ShutterPriority => 1,
                ExposureMode::AperturePriority => 2,
                ExposureMode::Manual => 3,
                ExposureMode::Bulb => 4,
                ExposureMode::FullAuto => 9,
            },
    {
        match self {
            ExposureMode::ProgramAE => 0,
            ExposureMode::ShutterPriority => 1,
            ExposureMode::AperturePriority => 2,
            ExposureMode::Manual => 3,
            ExposureMode::Bulb => 4,
            ExposureMode::FullAuto => 9,
        }
    }
}

impl ShutterSpeed {
    /// The number that the setting is known by.
    pub fn value(self) -> (r: u32)
        ensures
            r == match self {
                ShutterSpeed::S30 => 30u32,
                ShutterSpeed::S60 => 60,
                ShutterSpeed::S125 => 125,
                ShutterSpeed::S250 => 250,
                ShutterSpeed::S500 => 500,
                ShutterSpeed::S1000 => 1000,
            },
    {
        match self {
            ShutterSpeed::S30 => 30,
            ShutterSpeed::S60 => 60,
            ShutterSpeed::S125 => 125,
            ShutterSpeed::S250 => 250,
            ShutterSpeed::S500 => 500,
            ShutterSpeed::S1000 => 1000,
        }
    }
}

/// What the external camera is set to before a capture.
#[derive(Clone, Copy, Debug, PartialEq, Eq, Structural)]
pub struct Exposure {
    pub iso: IsoValue,
    pub aperture: ApertureValue,
    pub shutter_speed: ShutterSpeed,
}

/// One setting of the external camera.
#[derive(Clone, Copy, Debug, PartialEq, Eq, Structural)]
pub enum Setting {
    Iso(IsoValue),
    Aperture(ApertureValue),
    ShutterSpeed(ShutterSpeed),
}

impl Exposure {
    /// The settings in the order in which they are made.
    pub open spec fn in_order(self) -> Seq<Setting> {
        seq![
            Setting::Iso(self.iso),
            Setting::Aperture(self.aperture),
            Setting::ShutterSpeed(self.shutter_speed),
        ]
    }

    /// The settings in the order in which they are made: ISO, aperture, shutter
    /// speed.
    pub fn settings(self) -> (r: Vec<Setting>)
        ensures
            r@ == self.in_order(),
    {
        let mut settings: Vec<Setting> = Vec::new();
        settings.push(Setting::Iso(self.iso));
        settings.push(Setting::Aperture(self.aperture));
        settings.push(Setting::ShutterSpeed(self.shutter_speed));
        assert(settings@ =~= self.in_order());
        settings
    }
}

/// What the external camera looks at.
#[derive(Clone, Copy, Debug, PartialEq, Eq, Structural)]
pub enum Scene {
    /// The printed board, lit by a white frame.
    LitBoard,
    /// The printed board under a dark projector.
    DarkBoard,
    /// Projected lines or Gray code.
    Pattern,
    /// The black reference and the overlapping checkerboards.
    Alignment,
    /// The resolution targets.
    Target,
}

/// The exposure for a scene: small aperture, slow for what is projected; wide
/// aperture for what is dim.
pub open spec fn scene_exposure(scene: Scene) -> Exposure {
    match scene {
        Scene::LitBoard => Exposure {
            iso: IsoValue::Iso400,
            aperture: ApertureValue::F160,
            shutter_speed: ShutterSpeed::S60,
        },
        Scene::DarkBoard => Exposure {
            iso: IsoValue::Iso800,
            aperture: ApertureValue::F40,
            shutter_speed: ShutterSpeed::S60,
        },
        Scene::Pattern | Scene::Target => Exposure {
            iso: IsoValue::Iso400,
            aperture: ApertureValue::F160,
            shutter_speed: ShutterSpeed::S30,
        },
        Scene::Alignment => Exposure {
            iso: IsoValue::Iso400,
            aperture: ApertureValue::F40,
            shutter_speed: ShutterSpeed::S60,
        },
    }
}

impl Scene {
    /// The exposure for the scene.
    pub fn exposure(self) -> (r: Exposure)
        ensures
            r == scene_exposure(self),
    {
        match self {
            Scene::LitBoard => Exposure {
                iso: IsoValue::Iso400,
                aperture: ApertureValue::F160,
                shutter_speed: ShutterSpeed::S60,
            },
            Scene::DarkBoard => Exposure {
                iso: IsoValue::Iso800,
                aperture: ApertureValue::F40,
                shutter_speed: ShutterSpeed::S60,
            },
            Scene::Pattern | Scene::Target => Exposure {
                iso: IsoValue::Iso400,
                aperture: ApertureValue::F160,
                shutter_speed: ShutterSpeed::S30,
            },
            Scene::Alignment => Exposure {
                iso: IsoValue::Iso400,
                aperture: ApertureValue::F40,
                shutter_speed: ShutterSpeed::S60,
            },
        }
    }
}

/// The settings of every scene, by their numbers: what is projected on the board is
/// taken at a small aperture, what is dim at a wide one, and patterns and targets
/// slowest.
pub proof fn law_exposures(scene: Scene, e: Exposure, iso: u32, aperture: u32, speed: u32)
    requires
        call_ensures(Scene::exposure, (scene,), e),
        call_ensures(IsoValue::value, (e.iso,), iso),
        call_ensures(ApertureValue::value, (e.aperture,), aperture),
        call_ensures(ShutterSpeed::value, (e.shutter_speed,), speed),
    ensures
        iso == if scene == Scene::DarkBoard {
            800u32
        } else {
            400
        },
        aperture == if scene == Scene::DarkBoard || scene == Scene::Alignment {
            40u32
        } else {
            160
        },
        speed == if scene == Scene::Pattern || scene == Scene::Target {
            30u32
        } else {
            60
        },
{
}

/// An exposure is set by its ISO, then its aperture, then its shutter speed.
pub proof fn law_settings_in_order(e: Exposure, settings: Vec<Setting>)
    requires
        call_ensures(Exposure::settings, (e,), settings),
    ensures
        settings@.len() == 3,
        settings@[0] == Setting::Iso(e.iso),
        settings@[1] == Setting::Aperture(e.aperture),
        settings@[2] == Setting::ShutterSpeed(e.shutter_speed),
{
}

} // verus!
