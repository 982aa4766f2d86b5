use embedded_camera_calibration::external_camera::{
    ApertureValue, Exposure, ExposureMode, IsoValue, Scene, Setting, ShutterSpeed,
};

#[test]
fn settings_have_their_numbers() {
    assert_eq!(IsoValue::Auto.value(), 0);
    assert_eq!(IsoValue::Iso6400.value(), 6400);
    assert_eq!(ApertureValue::F28.value(), 28);
    assert_eq!(ApertureValue::F160.value(), 160);
    assert_eq!(ExposureMode::Bulb.value(), 4);
    assert_eq!(ExposureMode::FullAuto.value(), 9);
    assert_eq!(ShutterSpeed::S30.value(), 30);
    assert_eq!(ShutterSpeed::S1000.value(), 1000);
}

#[test]
fn scenes_have_their_exposures() {
    assert_eq!(
        Scene::LitBoard.exposure(),
        Exposure {
            iso: IsoValue::Iso400,
            aperture: ApertureValue::F160,
            shutter_speed: ShutterSpeed::S60,
        }
    );
    assert_eq!(
        Scene::DarkBoard.exposure(),
        Exposure {
            iso: IsoValue::Iso800,
            aperture: ApertureValue::F40,
            shutter_speed: ShutterSpeed::S60,
        }
    );
    assert_eq!(
        Scene::Pattern.exposure(),
        Exposure {
            iso: IsoValue::Iso400,
            aperture: ApertureValue::F160,
            shutter_speed: ShutterSpeed::S30,
        }
    );
    assert_eq!(Scene::Target.exposure(), Scene::Pattern.exposure());
    assert_eq!(Scene::Alignment.exposure().aperture, ApertureValue::F40);
}

#[test]
fn settings_are_made_in_order() {
    assert_eq!(
        Scene::DarkBoard.exposure().settings(),
        vec![
            Setting::Iso(IsoValue::Iso800),
            Setting::Aperture(ApertureValue::F40),
            Setting::ShutterSpeed(ShutterSpeed::S60),
        ]
    );
}
