use mcumgr_toolkit_web::commands::image::{
    image_upload_max_data_chunk_size, ImageUpload, UploadRequest, DEFAULT_SMP_FRAME_SIZE,
};
use mcumgr_toolkit_web::commands::os_info::{
    mcuboot_info, mcuboot_mode_name, record_app_info_field, unknown_bootloader, AppInfoField,
    ApplicationInfo, BootloaderInfo,
};
use mcumgr_toolkit_web::commands::{check_smp_error, ErrResponse, ErrResponseV2};
use mcumgr_toolkit_web::transport::TransportError;
use sha2::Digest;

#[test]
fn smp_error_none() {
    let e = ErrResponse { rc: None, rsn: None, err: None };
    assert_eq!(check_smp_error(&e), Ok(()));
    let e = ErrResponse { rc: Some(0), rsn: Some("ignored".to_string()), err: None };
    assert_eq!(check_smp_error(&e), Ok(()));
}

#[test]
fn smp_error_v1() {
    let e = ErrResponse { rc: Some(3), rsn: Some("bad arg".to_string()), err: None };
    assert_eq!(check_smp_error(&e), Err("Device error (v1): rc=3 bad arg".to_string()));
    let e = ErrResponse { rc: Some(-12), rsn: None, err: None };
    assert_eq!(check_smp_error(&e), Err("Device error (v1): rc=-12 ".to_string()));
}

#[test]
fn smp_error_v2_wins() {
    let e = ErrResponse { rc: Some(5), rsn: None, err: Some(ErrResponseV2 { group: 65535, rc: 1 }) };
    assert_eq!(check_smp_error(&e), Err("Device error (v2): group=65535, rc=1".to_string()));
    let e = ErrResponse { rc: None, rsn: None, err: Some(ErrResponseV2 { group: 0, rc: i32::MIN }) };
    assert_eq!(check_smp_error(&e), Err("Device error (v2): group=0, rc=-2147483648".to_string()));
}

#[test]
fn chunk_size_default_frame() {
    // a first upload request with maximal fields and one data byte takes 83 CBOR bytes
    assert_eq!(image_upload_max_data_chunk_size(DEFAULT_SMP_FRAME_SIZE, 83), Ok(292));
}

#[test]
fn chunk_size_small_frames() {
    let err = Err("SMP frame size too small".to_string());
    assert_eq!(image_upload_max_data_chunk_size(7, 83), err);
    assert_eq!(image_upload_max_data_chunk_size(90, 83), err);
    assert_eq!(image_upload_max_data_chunk_size(91, 83), err);
    assert_eq!(image_upload_max_data_chunk_size(92, 83), Ok(1));
    // 255 estimated bytes need one length byte, 256 need two
    assert_eq!(image_upload_max_data_chunk_size(90 + 255, 83), Ok(254));
    assert_eq!(image_upload_max_data_chunk_size(90 + 256, 83), Ok(254));
    assert_eq!(image_upload_max_data_chunk_size(90 + 70000, 83), Ok(69996));
}

fn drive_upload(data: &[u8], image: Option<u32>, max: usize) -> Vec<UploadRequest> {
    let mut upload = ImageUpload::new(data, image, max);
    let mut sent = Vec::new();
    while let Some(req) = upload.next_request(data) {
        let ack = match &req {
            UploadRequest::First(f) => f.off + f.data.len() as u64,
            UploadRequest::Chunk(c) => c.off + c.data.len() as u64,
        };
        sent.push(req);
        upload.handle_response(ack);
    }
    assert!(upload.is_done());
    sent
}

#[test]
fn upload_first_request_carries_hash() {
    let data: Vec<u8> = b"abc".to_vec();
    let sent = drive_upload(&data, Some(1), 292);
    assert_eq!(sent.len(), 1);
    match &sent[0] {
        UploadRequest::First(f) => {
            assert_eq!(f.image, Some(1));
            assert_eq!(f.len, 3);
            assert_eq!(f.off, 0);
            assert_eq!(f.data, data);
            let expected: Vec<u8> = sha2::Sha256::digest(&data).to_vec();
            assert_eq!(f.sha, expected);
            assert_eq!(f.sha[0..4], [0xba, 0x78, 0x16, 0xbf]);
        }
        UploadRequest::Chunk(_) => panic!("first request expected"),
    }
}

#[test]
fn upload_covers_image_law() {
    let data: Vec<u8> = (0..1000u32).map(|i| (i % 251) as u8).collect();
    let sent = drive_upload(&data, None, 292);
    assert_eq!(sent.len(), 4);
    let mut joined = Vec::new();
    for (i, req) in sent.iter().enumerate() {
        match req {
            UploadRequest::First(f) => {
                assert_eq!(i, 0);
                assert_eq!(f.image, None);
                joined.extend_from_slice(&f.data);
            }
            UploadRequest::Chunk(c) => {
                assert_eq!(c.off as usize, joined.len());
                joined.extend_from_slice(&c.data);
            }
        }
    }
    assert_eq!(joined, data);
}

#[test]
fn upload_follows_device_offset() {
    let data = vec![7u8; 10];
    let mut upload = ImageUpload::new(&data, None, 4);
    assert_eq!(upload.offset_now(), 0);
    upload.handle_response(2);
    match upload.next_request(&data).unwrap() {
        UploadRequest::Chunk(c) => {
            assert_eq!(c.off, 2);
            assert_eq!(c.data.len(), 4);
        }
        UploadRequest::First(_) => panic!("chunk expected"),
    }
    upload.handle_response(10);
    assert!(upload.next_request(&data).is_none());
    let empty: Vec<u8> = Vec::new();
    assert!(ImageUpload::new(&empty, None, 4).next_request(&empty).is_none());
}

#[test]
fn app_info_fields_and_formats() {
    let formats: Vec<&str> = AppInfoField::all().iter().map(|f| f.format()).collect();
    assert_eq!(formats, vec!["s", "n", "r", "v", "b", "m", "p", "i", "o"]);
    assert!(AppInfoField::BuildTime.may_fail());
    assert!(!AppInfoField::Machine.may_fail());
}

#[test]
fn app_info_collects_fields() {
    let mut info = ApplicationInfo::default();
    for field in AppInfoField::all() {
        let fetched = if field == AppInfoField::BuildTime {
            Err(TransportError::UnexpectedResponse)
        } else {
            Ok(format!("value-{}", field.format()))
        };
        assert!(record_app_info_field(&mut info, field, fetched).is_ok());
    }
    assert_eq!(info.kernel_name.as_deref(), Some("value-s"));
    assert_eq!(info.node_name.as_deref(), Some("value-n"));
    assert_eq!(info.kernel_release.as_deref(), Some("value-r"));
    assert_eq!(info.kernel_version.as_deref(), Some("value-v"));
    assert_eq!(info.build_time, None);
    assert_eq!(info.machine.as_deref(), Some("value-m"));
    assert_eq!(info.processor.as_deref(), Some("value-p"));
    assert_eq!(info.hardware_platform.as_deref(), Some("value-i"));
    assert_eq!(info.operating_system.as_deref(), Some("value-o"));
}

#[test]
fn app_info_other_failure_propagates() {
    let mut info = ApplicationInfo::default();
    let r = record_app_info_field(&mut info, AppInfoField::Machine, Err(TransportError::Js("x".to_string())));
    assert!(matches!(r, Err(TransportError::Js(ref m)) if m == "x"));
    assert_eq!(info.machine, None);
}

#[test]
fn mcuboot_mode_names() {
    let names = [
        "MCUBOOT_MODE_SINGLE_SLOT",
        "MCUBOOT_MODE_SWAP_USING_SCRATCH",
        "MCUBOOT_MODE_UPGRADE_ONLY",
        "MCUBOOT_MODE_SWAP_USING_MOVE",
        "MCUBOOT_MODE_DIRECT_XIP",
        "MCUBOOT_MODE_DIRECT_XIP_WITH_REVERT",
        "MCUBOOT_MODE_RAM_LOAD",
        "MCUBOOT_MODE_FIRMWARE_LOADER",
        "MCUBOOT_MODE_SINGLE_SLOT_RAM_LOAD",
        "MCUBOOT_MODE_SWAP_USING_OFFSET",
    ];
    for (i, name) in names.iter().enumerate() {
        assert_eq!(mcuboot_mode_name(i as i32), Some(*name));
    }
    assert_eq!(mcuboot_mode_name(10), None);
    assert_eq!(mcuboot_mode_name(-1), None);
}

#[test]
fn bootloader_classification() {
    assert!(unknown_bootloader("MCUboot".to_string()).is_none());
    match unknown_bootloader("mcuboot".to_string()) {
        Some(BootloaderInfo::Unknown { name }) => assert_eq!(name, "mcuboot"),
        _ => panic!("unknown bootloader expected"),
    }
    match mcuboot_info(3, true) {
        BootloaderInfo::MCUboot { name, mode, mode_name, no_downgrade } => {
            assert_eq!(name, "MCUboot");
            assert_eq!(mode, 3);
            assert_eq!(mode_name, Some("MCUBOOT_MODE_SWAP_USING_MOVE"));
            assert!(no_downgrade);
        }
        BootloaderInfo::Unknown { .. } => panic!("MCUboot expected"),
    }
    match mcuboot_info(42, false) {
        BootloaderInfo::MCUboot { mode_name, .. } => assert_eq!(mode_name, None),
        BootloaderInfo::Unknown { .. } => panic!("MCUboot expected"),
    }
}
