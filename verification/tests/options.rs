use firefly::vio::options::{FeatRepresentation, ImuModel, IntegrationMethod, StateOptions};

#[test]
fn intrinsic_size_follows_cpp() {
    let s = StateOptions::default();
    assert_eq!(s.imu_intrinsic_size(), 0);
    let s2 = StateOptions {
        do_calib_imu_intrinsics: true,
        ..StateOptions::default()
    };
    assert_eq!(s2.imu_intrinsic_size(), 15);
    let s3 = StateOptions {
        do_calib_imu_intrinsics: true,
        do_calib_imu_g_sensitivity: true,
        ..StateOptions::default()
    };
    assert_eq!(s3.imu_intrinsic_size(), 24);
}

#[test]
fn state_options_defaults() {
    let s = StateOptions::default();
    assert_eq!(s.max_clone_size, 11);
    assert_eq!(s.max_msckf_in_update, 1000);
}

#[test]
fn relative_representations_have_anchors() {
    assert!(!FeatRepresentation::Global3D.is_relative());
    assert!(FeatRepresentation::Anchored3D.is_relative());
    assert_eq!(StateOptions::default().imu_model, ImuModel::Kalibr);
    assert_eq!(StateOptions::default().integration_method, IntegrationMethod::Rk4);
}
