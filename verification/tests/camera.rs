use ascii_shader::camera::{
    list_cameras, looks_like_phone, pick_continuity_index, CameraEntry, CameraId,
};

fn camera(id: CameraId, name: &str, description: &str) -> CameraEntry {
    CameraEntry { id, human_name: name.to_string(), description: description.to_string() }
}

#[test]
fn phones_go_by_their_description() {
    assert!(looks_like_phone("avcapturedevicetypecontinuitycamera", "anna's camera"));
    assert!(looks_like_phone("apple: avcapturedevicetypeexternal, back", ""));
    assert!(looks_like_phone("iphone 15", "x"));
    assert!(!looks_like_phone("facetime hd camera", "iphone"));
    assert!(!looks_like_phone("iphon", "iphone"));
    assert!(!looks_like_phone("", ""));
}

#[test]
fn the_desk_view_is_no_phone() {
    assert!(!looks_like_phone("iphone", "anna's desk view camera"));
    assert!(!looks_like_phone("iphone desk view", "anna"));
    assert!(looks_like_phone("iphone", "deskview"));
}

#[test]
fn the_first_phone_is_picked() {
    let cams = vec![
        camera(CameraId::Index(0), "FaceTime HD", "Built-in"),
        camera(CameraId::Index(1), "Anna Desk View", "iPhone"),
        camera(CameraId::Name("url".to_string()), "Remote", "iPhone"),
        camera(CameraId::Index(7), "Anna's iPhone", "AVCaptureDeviceTypeContinuityCamera"),
        camera(CameraId::Index(8), "Other", "IPHONE"),
    ];
    let pick = pick_continuity_index(&cams).unwrap();
    assert_eq!(pick.index, 7);
    assert_eq!(pick.notice, "using Continuity Camera at index 7: Anna's iPhone");
}

#[test]
fn case_does_not_matter() {
    let cams = vec![camera(CameraId::Index(3), "X", "An IPHONE")];
    assert_eq!(pick_continuity_index(&cams).unwrap().index, 3);
    let desk = vec![camera(CameraId::Index(3), "DESK VIEW", "An IPHONE")];
    assert!(pick_continuity_index(&desk).is_err());
}

#[test]
fn without_a_phone_there_is_advice() {
    let cams = vec![camera(CameraId::Index(0), "FaceTime HD", "Built-in")];
    let text = "No Continuity Camera found. Wake your iPhone, make sure both devices are signed \
                into the same Apple ID, and keep them nearby with Wi-Fi + Bluetooth on.";
    assert_eq!(pick_continuity_index(&cams).unwrap_err(), text);
    assert_eq!(pick_continuity_index(&vec![]).unwrap_err(), text);
}

#[test]
fn cameras_are_listed() {
    let cams = vec![
        camera(CameraId::Index(0), "FaceTime HD", "Built-in"),
        camera(CameraId::Name("rtsp://x".to_string()), "Remote", ""),
    ];
    assert_eq!(
        list_cameras(&cams, true),
        "2 camera(s) available:\n  [0] FaceTime HD  \u{2014}  Built-in\n  [rtsp://x] Remote  \u{2014}  \n"
    );
}

#[test]
fn no_cameras_are_listed() {
    assert_eq!(list_cameras(&vec![], false), "No cameras found.\n");
    assert_eq!(
        list_cameras(&vec![], true),
        "No cameras found.\nTip: for iPhone Continuity Camera, sign in to the same Apple ID on \
         both devices, keep them nearby with Wi-Fi + Bluetooth on, and unlock the iPhone.\n"
    );
}
