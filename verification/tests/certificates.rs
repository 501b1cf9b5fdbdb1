use netproxy::dispatch::{ControlPlane, Step};

/// A self-signed PKCS #12 archive made for this test; its password is
/// `secret`.
const TEST_IDENTITY: [u8; 2381] = [
    48, 130, 9, 73, 2, 1, 3, 48, 130, 9, 15, 6, 9, 42, 134, 72,
    134, 247, 13, 1, 7, 1, 160, 130, 9, 0, 4, 130, 8, 252, 48, 130,
    8, 248, 48, 130, 3, 175, 6, 9, 42, 134, 72, 134, 247, 13, 1, 7,
    6, 160, 130, 3, 160, 48, 130, 3, 156, 2, 1, 0, 48, 130, 3, 149,
    6, 9, 42, 134, 72, 134, 247, 13, 1, 7, 1, 48, 28, 6, 10, 42,
    134, 72, 134, 247, 13, 1, 12, 1, 3, 48, 14, 4, 8, 17, 104, 231,
    158, 212, 12, 243, 173, 2, 2, 8, 0, 128, 130, 3, 104, 239, 74, 237,
    232, 252, 153, 241, 141, 140, 113, 221, 16, 248, 203, 255, 46, 146, 115, 69,
    62, 22, 206, 113, 167, 212, 28, 145, 63, 79, 90, 217, 90, 124, 69, 192,
    184, 77, 135, 178, 63, 52, 252, 162, 161, 174, 126, 108, 222, 121, 222, 116,
    67, 38, 44, 250, 76, 26, 121, 7, 193, 222, 119, 90, 227, 85, 93, 156,
    131, 62, 228, 172, 64, 209, 26, 122, 254, 86, 129, 163, 235, 169, 239, 47,
    2, 158, 132, 166, 39, 81, 173, 221, 15, 108, 202, 159, 6, 168, 88, 235,
    21, 145, 94, 39, 121, 30, 27, 26, 218, 18, 150, 235, 75, 63, 75, 49,
    234, 24, 105, 36, 114, 137, 42, 72, 176, 211, 23, 42, 92, 151, 235, 69,
    56, 152, 131, 237, 31, 82, 144, 238, 202, 1, 132, 9, 113, 142, 202, 186,
    38, 250, 112, 239, 6, 249, 137, 211, 26, 157, 96, 93, 132, 123, 98, 204,
    240, 251, 96, 55, 247, 183, 183, 244, 8, 202, 172, 216, 112, 63, 212, 89,
    12, 249, 70, 49, 33, 211, 78, 0, 60, 130, 57, 34, 176, 66, 35, 186,
    249, 172, 62, 95, 203, 195, 176, 129, 170, 243, 130, 38, 144, 199, 36, 157,
    119, 136, 26, 97, 9, 37, 171, 150, 174, 134, 151, 206, 12, 3, 169, 224,
    150, 251, 0, 7, 145, 55, 72, 229, 232, 129, 154, 29, 208, 222, 192, 69,
    182, 86, 133, 30, 189, 237, 30, 16, 81, 193, 234, 62, 43, 182, 156, 61,
    60, 93, 192, 237, 12, 124, 6, 21, 195, 100, 113, 110, 244, 16, 253, 207,
    239, 130, 71, 175, 36, 115, 153, 175, 232, 77, 90, 236, 205, 128, 186, 202,
    173, 87, 220, 68, 77, 102, 191, 61, 86, 133, 44, 191, 25, 207, 14, 29,
    114, 101, 139, 88, 170, 52, 124, 120, 54, 144, 180, 26, 254, 101, 107, 226,
    151, 72, 79, 212, 160, 54, 210, 154, 142, 164, 53, 177, 244, 199, 166, 132,
    27, 102, 117, 204, 104, 177, 239, 153, 78, 78, 82, 124, 107, 244, 19, 180,
    38, 227, 61, 134, 238, 38, 218, 69, 243, 37, 234, 240, 231, 19, 244, 62,
    209, 94, 77, 57, 100, 60, 119, 148, 134, 203, 144, 58, 220, 168, 221, 147,
    208, 215, 169, 167, 165, 241, 100, 218, 111, 210, 176, 210, 142, 112, 146, 126,
    119, 209, 204, 60, 214, 33, 191, 108, 24, 229, 112, 57, 7, 247, 198, 204,
    91, 87, 31, 151, 156, 66, 187, 233, 96, 147, 32, 33, 51, 20, 155, 62,
    190, 175, 59, 77, 143, 125, 85, 156, 206, 240, 190, 233, 212, 228, 171, 79,
    56, 143, 107, 113, 201, 89, 126, 246, 52, 142, 47, 233, 222, 89, 1, 189,
    115, 171, 16, 189, 245, 229, 239, 104, 233, 78, 187, 136, 192, 151, 42, 71,
    197, 84, 210, 137, 36, 100, 27, 68, 234, 44, 12, 191, 95, 87, 202, 241,
    224, 29, 141, 98, 112, 169, 59, 62, 43, 1, 131, 77, 31, 174, 145, 68,
    167, 167, 189, 51, 110, 195, 169, 158, 89, 238, 254, 230, 46, 81, 128, 191,
    19, 75, 171, 23, 185, 203, 142, 142, 200, 134, 55, 94, 133, 49, 55, 229,
    251, 48, 134, 31, 11, 102, 32, 20, 212, 60, 15, 253, 123, 26, 20, 107,
    118, 37, 199, 146, 142, 10, 116, 1, 217, 117, 185, 19, 8, 210, 248, 187,
    255, 85, 152, 0, 106, 61, 140, 214, 110, 199, 157, 24, 234, 108, 151, 186,
    27, 143, 25, 244, 41, 113, 39, 36, 127, 194, 118, 60, 181, 232, 105, 185,
    85, 120, 77, 111, 116, 94, 17, 4, 252, 31, 211, 243, 17, 37, 191, 156,
    103, 36, 247, 90, 228, 53, 63, 217, 224, 208, 112, 139, 130, 191, 16, 98,
    190, 81, 90, 75, 129, 14, 65, 252, 3, 108, 179, 41, 127, 37, 63, 87,
    198, 25, 172, 142, 246, 111, 36, 48, 235, 226, 136, 92, 214, 72, 72, 92,
    229, 67, 26, 87, 60, 217, 173, 92, 107, 80, 149, 107, 131, 3, 83, 40,
    17, 216, 19, 49, 25, 86, 225, 224, 188, 143, 89, 25, 128, 178, 173, 230,
    198, 183, 90, 217, 58, 118, 134, 101, 68, 145, 76, 29, 41, 72, 158, 206,
    98, 165, 133, 169, 240, 39, 216, 138, 77, 6, 252, 233, 233, 177, 219, 59,
    11, 5, 65, 156, 148, 201, 83, 137, 224, 102, 52, 132, 129, 160, 66, 186,
    169, 40, 46, 243, 184, 44, 251, 216, 151, 149, 222, 78, 81, 63, 156, 1,
    86, 197, 131, 139, 67, 60, 129, 53, 119, 54, 226, 52, 109, 222, 206, 72,
    134, 152, 192, 15, 124, 248, 131, 176, 23, 122, 174, 118, 241, 138, 232, 28,
    69, 6, 100, 123, 41, 142, 109, 99, 163, 160, 51, 150, 45, 191, 215, 239,
    57, 162, 49, 62, 37, 27, 6, 2, 12, 99, 59, 39, 120, 149, 160, 175,
    191, 31, 107, 148, 104, 144, 217, 176, 188, 220, 30, 201, 221, 151, 0, 172,
    16, 132, 216, 53, 22, 112, 16, 37, 37, 187, 202, 198, 189, 241, 211, 40,
    186, 86, 135, 18, 166, 48, 130, 5, 65, 6, 9, 42, 134, 72, 134, 247,
    13, 1, 7, 1, 160, 130, 5, 50, 4, 130, 5, 46, 48, 130, 5, 42,
    48, 130, 5, 38, 6, 11, 42, 134, 72, 134, 247, 13, 1, 12, 10, 1,
    2, 160, 130, 4, 238, 48, 130, 4, 234, 48, 28, 6, 10, 42, 134, 72,
    134, 247, 13, 1, 12, 1, 3, 48, 14, 4, 8, 127, 210, 108, 13, 119,
    191, 113, 33, 2, 2, 8, 0, 4, 130, 4, 200, 6, 53, 64, 17, 207,
    73, 9, 127, 129, 231, 140, 208, 23, 181, 91, 195, 74, 178, 250, 12, 53,
    176, 203, 82, 2, 251, 95, 202, 72, 244, 247, 230, 167, 41, 180, 117, 171,
    64, 107, 186, 30, 242, 62, 189, 83, 152, 64, 98, 73, 38, 182, 199, 239,
    221, 194, 225, 170, 62, 213, 130, 26, 155, 52, 155, 159, 7, 238, 91, 151,
    228, 114, 62, 120, 174, 9, 190, 97, 254, 60, 42, 177, 129, 26, 85, 180,
    115, 247, 44, 42, 81, 80, 129, 107, 117, 158, 111, 242, 14, 221, 68, 148,
    114, 61, 59, 111, 24, 31, 147, 150, 175, 250, 21, 70, 216, 140, 223, 207,
    167, 36, 102, 55, 229, 21, 56, 12, 115, 159, 197, 180, 242, 117, 64, 23,
    202, 3, 125, 137, 14, 143, 0, 252, 181, 179, 223, 3, 57, 244, 247, 203,
    89, 83, 243, 137, 155, 65, 204, 34, 42, 70, 73, 173, 79, 47, 77, 161,
    146, 39, 37, 222, 179, 34, 26, 99, 44, 177, 232, 30, 250, 105, 38, 79,
    18, 253, 144, 1, 136, 14, 20, 218, 193, 137, 26, 164, 139, 243, 186, 52,
    224, 78, 61, 146, 90, 160, 253, 155, 100, 68, 159, 118, 9, 248, 228, 226,
    221, 106, 58, 26, 153, 84, 90, 114, 197, 65, 184, 11, 9, 237, 6, 19,
    170, 9, 179, 42, 52, 114, 247, 162, 23, 140, 148, 82, 175, 20, 107, 150,
    29, 8, 7, 120, 19, 43, 251, 254, 39, 69, 110, 66, 252, 24, 21, 221,
    25, 118, 191, 62, 20, 182, 68, 178, 210, 44, 88, 121, 79, 160, 172, 236,
    221, 11, 227, 255, 96, 169, 163, 211, 45, 28, 199, 51, 129, 135, 65, 160,
    112, 19, 92, 182, 40, 38, 215, 36, 229, 92, 253, 186, 107, 29, 246, 241,
    250, 206, 33, 48, 16, 153, 48, 226, 60, 54, 186, 10, 119, 132, 30, 245,
    187, 174, 56, 141, 95, 249, 97, 109, 226, 110, 135, 73, 166, 97, 19, 156,
    69, 224, 182, 246, 235, 10, 240, 107, 110, 180, 210, 117, 152, 231, 18, 50,
    138, 62, 227, 156, 15, 104, 147, 231, 4, 239, 107, 166, 13, 244, 89, 54,
    50, 230, 248, 132, 91, 92, 10, 6, 144, 203, 194, 186, 146, 142, 226, 111,
    34, 246, 121, 38, 196, 64, 21, 23, 63, 97, 145, 251, 79, 27, 25, 61,
    236, 226, 50, 226, 59, 124, 113, 16, 21, 242, 112, 249, 31, 155, 35, 53,
    143, 172, 67, 231, 55, 167, 164, 86, 209, 230, 27, 91, 216, 118, 4, 154,
    206, 209, 9, 171, 38, 42, 18, 128, 41, 128, 129, 62, 129, 150, 192, 245,
    120, 161, 41, 228, 153, 44, 246, 231, 89, 110, 158, 175, 22, 8, 100, 212,
    56, 238, 45, 236, 122, 52, 175, 110, 224, 189, 226, 184, 130, 191, 53, 143,
    190, 93, 126, 84, 27, 215, 209, 123, 129, 40, 238, 248, 28, 100, 241, 114,
    38, 13, 101, 225, 113, 31, 179, 95, 121, 227, 219, 255, 165, 100, 19, 123,
    11, 145, 3, 251, 19, 93, 167, 253, 96, 217, 240, 91, 220, 13, 105, 228,
    65, 98, 152, 94, 21, 136, 193, 213, 7, 117, 136, 225, 48, 84, 101, 52,
    210, 169, 153, 113, 112, 78, 80, 100, 206, 187, 75, 164, 65, 145, 130, 74,
    88, 238, 32, 89, 7, 154, 235, 165, 141, 32, 69, 186, 252, 219, 164, 211,
    1, 83, 173, 185, 54, 183, 190, 130, 153, 149, 120, 86, 244, 8, 118, 146,
    143, 18, 89, 172, 27, 131, 154, 167, 140, 163, 165, 6, 90, 44, 100, 43,
    103, 95, 85, 131, 70, 41, 212, 35, 247, 150, 113, 71, 195, 50, 194, 127,
    191, 234, 104, 79, 219, 34, 205, 202, 201, 207, 101, 66, 1, 244, 17, 181,
    164, 96, 92, 142, 146, 94, 181, 129, 182, 153, 250, 93, 95, 156, 62, 238,
    137, 20, 178, 40, 20, 116, 34, 109, 211, 203, 200, 206, 34, 51, 173, 175,
    105, 159, 238, 116, 26, 104, 19, 151, 236, 14, 118, 246, 187, 40, 145, 67,
    240, 183, 165, 19, 66, 55, 15, 208, 140, 193, 77, 171, 103, 119, 142, 224,
    28, 232, 178, 136, 250, 217, 132, 206, 103, 5, 198, 190, 191, 168, 206, 96,
    251, 0, 79, 160, 116, 142, 216, 38, 182, 108, 198, 32, 250, 101, 219, 225,
    88, 152, 176, 2, 63, 135, 103, 61, 87, 35, 56, 72, 190, 6, 235, 216,
    211, 21, 32, 224, 218, 23, 29, 61, 120, 157, 144, 168, 48, 230, 190, 56,
    41, 78, 13, 208, 239, 116, 36, 142, 157, 151, 108, 1, 39, 25, 219, 74,
    90, 42, 177, 191, 36, 214, 234, 129, 51, 19, 172, 178, 94, 205, 13, 118,
    76, 158, 197, 250, 71, 224, 233, 25, 77, 16, 3, 67, 27, 78, 207, 76,
    221, 134, 31, 226, 181, 98, 5, 93, 35, 181, 94, 191, 73, 237, 106, 65,
    80, 79, 36, 97, 158, 239, 224, 125, 124, 39, 75, 182, 56, 119, 59, 149,
    136, 68, 246, 244, 57, 241, 150, 20, 123, 147, 174, 52, 27, 219, 198, 97,
    157, 2, 103, 211, 54, 226, 102, 134, 84, 84, 120, 56, 229, 11, 27, 157,
    179, 21, 73, 83, 197, 190, 80, 10, 238, 50, 93, 172, 212, 95, 163, 199,
    114, 225, 243, 35, 108, 51, 7, 82, 92, 219, 65, 205, 238, 127, 66, 38,
    125, 242, 249, 225, 205, 80, 1, 101, 253, 25, 201, 19, 47, 68, 26, 56,
    80, 147, 253, 16, 250, 169, 116, 94, 101, 248, 100, 220, 109, 154, 54, 67,
    131, 0, 148, 156, 38, 87, 16, 196, 121, 114, 181, 152, 137, 92, 175, 21,
    121, 128, 203, 222, 100, 85, 169, 46, 0, 255, 246, 158, 24, 223, 239, 251,
    66, 230, 136, 212, 225, 51, 191, 56, 96, 71, 130, 7, 216, 64, 155, 219,
    165, 243, 215, 176, 136, 147, 238, 117, 247, 152, 58, 122, 82, 224, 16, 196,
    187, 164, 80, 220, 10, 66, 85, 205, 61, 0, 80, 69, 5, 62, 175, 105,
    7, 117, 235, 196, 30, 153, 253, 210, 130, 231, 26, 111, 94, 138, 160, 60,
    77, 211, 187, 9, 42, 55, 58, 50, 6, 148, 36, 192, 76, 89, 151, 14,
    243, 168, 48, 197, 223, 171, 166, 168, 26, 35, 202, 77, 121, 171, 134, 202,
    246, 0, 86, 243, 53, 88, 247, 105, 113, 252, 170, 100, 228, 76, 191, 84,
    120, 194, 14, 242, 180, 126, 128, 146, 248, 28, 3, 250, 78, 252, 200, 32,
    247, 175, 222, 93, 160, 238, 197, 218, 182, 80, 163, 245, 226, 222, 19, 137,
    232, 142, 66, 6, 48, 49, 176, 178, 223, 57, 201, 219, 29, 77, 207, 215,
    96, 243, 113, 54, 89, 175, 91, 198, 116, 123, 255, 111, 159, 31, 119, 196,
    135, 96, 254, 18, 21, 117, 184, 58, 83, 12, 119, 188, 193, 171, 1, 147,
    169, 43, 232, 34, 1, 215, 132, 127, 63, 92, 34, 236, 16, 103, 224, 183,
    37, 41, 55, 23, 247, 171, 244, 121, 249, 170, 210, 237, 58, 154, 70, 40,
    13, 113, 94, 26, 104, 194, 56, 6, 89, 43, 176, 94, 94, 234, 138, 112,
    107, 72, 146, 49, 37, 48, 35, 6, 9, 42, 134, 72, 134, 247, 13, 1,
    9, 21, 49, 22, 4, 20, 66, 129, 229, 205, 3, 174, 243, 34, 195, 12,
    66, 12, 233, 222, 233, 217, 217, 142, 139, 176, 48, 49, 48, 33, 48, 9,
    6, 5, 43, 14, 3, 2, 26, 5, 0, 4, 20, 167, 192, 157, 171, 149,
    177, 65, 92, 214, 27, 235, 59, 226, 108, 86, 204, 134, 85, 205, 250, 4,
    8, 102, 209, 220, 239, 37, 124, 151, 151, 2, 2, 8, 0,
];

#[test]
fn a_valid_archive_installs_and_returns_its_byte_count() {
    let mut store = netproxy::cert::CertStore::new();
    let r = store.build_identity(&TEST_IDENTITY, "secret");
    assert_eq!(r, Ok(TEST_IDENTITY.len()));
    assert!(store.valid_identity().is_some());
    assert!(store.get_tls_acceptor().is_ok());
}

#[test]
fn a_later_install_replaces_the_identity() {
    let mut store = netproxy::cert::CertStore::new();
    // a failed install changes nothing
    assert!(store.build_identity(&[9u8, 9, 9], "secret").is_err());
    assert!(store.valid_identity().is_none());
    // each successful install replaces the held identity
    assert_eq!(store.build_identity(&TEST_IDENTITY, "secret"), Ok(TEST_IDENTITY.len()));
    assert_eq!(store.build_identity(&TEST_IDENTITY, "secret"), Ok(TEST_IDENTITY.len()));
    assert!(store.valid_identity().is_some());
    assert!(store.get_tls_acceptor().is_ok());
}

#[test]
fn a_wrong_password_is_a_certificate_error() {
    let mut store = netproxy::cert::CertStore::new();
    assert!(store.build_identity(&TEST_IDENTITY, "wrong").is_err());
}

#[test]
fn installing_a_certificate_leaves_the_waiting_mode() {
    let mut cp = ControlPlane::new(true);
    let step = cp.handle_cfg("certificate f ./identity.pfx secret".to_string());
    let (_path, pwd) = match step {
        Step::NeedFile(p, w) => (p, w),
        _ => panic!("expected a file request"),
    };
    // the surroundings read the file and hand the bytes back
    let reply = cp.handle_cert_file(Some(TEST_IDENTITY.to_vec()), &pwd);
    assert_eq!(reply, "ok");
    assert!(!cp.safe);
    // the store now backs a TLS acceptor, and ordinary sentences go through
    assert!(cp.certs.get_tls_acceptor().is_ok());
    match cp.handle_cfg("state".to_string()) {
        Step::Reply(t) => assert_eq!(t, "ok"),
        _ => panic!("expected a reply"),
    }
}
