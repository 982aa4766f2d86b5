use embedded_camera_calibration::projection::{
    get_winname, primary_display_width, window_x, Display, FALLBACK_WIDTH,
};

fn displays() -> Option<Vec<Display>> {
    let found = display_info::DisplayInfo::all().ok()?;
    Some(
        found
            .iter()
            .map(|d| Display { is_primary: d.is_primary, width: d.width })
            .collect(),
    )
}

#[test]
fn measures_primary_display_width() {
    assert!(primary_display_width(displays().as_ref()) > 0);
}

#[test]
fn windows_are_named_by_projector() {
    assert_eq!(get_winname(0), "Pattern 0");
    assert_eq!(get_winname(12), "Pattern 12");
}

#[test]
fn the_primary_display_is_preferred() {
    let all = vec![
        Display { is_primary: false, width: 800 },
        Display { is_primary: true, width: 2560 },
        Display { is_primary: true, width: 1024 },
    ];
    assert_eq!(primary_display_width(Some(&all)), 2560);
    let none_primary = vec![
        Display { is_primary: false, width: 800 },
        Display { is_primary: false, width: 640 },
    ];
    assert_eq!(primary_display_width(Some(&none_primary)), 800);
}

#[test]
fn without_displays_the_fallback_counts() {
    assert_eq!(primary_display_width(None), FALLBACK_WIDTH);
    assert_eq!(primary_display_width(Some(&vec![])), 1920);
}

#[test]
fn windows_stand_side_by_side() {
    let all = vec![Display { is_primary: true, width: 1440 }];
    assert_eq!(window_x(Some(&all), 0, 1280), 1440);
    assert_eq!(window_x(Some(&all), 1, 1280), 1440 + 1280);
    assert_eq!(window_x(None, 2, 1280), 1920 + 2560);
}

#[test]
fn no_two_windows_share_a_name() {
    for a in 0..120 {
        for b in 0..a {
            assert_ne!(get_winname(a), get_winname(b));
        }
    }
}
