use lazydict::signature::{encode, init, Signatures};

const PKG: [u8; 16] = [14, 176, 195, 92, 33, 68, 50, 24, 72, 141, 198, 70, 241, 171, 7, 121];
const XML: [u8; 16] = [41, 150, 49, 54, 171, 46, 56, 254, 124, 239, 135, 17, 19, 172, 6, 128];
const CAMERA: [u8; 16] = [32, 225, 203, 28, 174, 154, 98, 148, 32, 2, 88, 82, 53, 56, 222, 139];
const DEX: [u8; 16] = [178, 240, 201, 33, 192, 105, 247, 179, 90, 76, 191, 163, 64, 71, 28, 243];
const SPLASH: [u8; 16] = [186, 210, 48, 170, 3, 204, 61, 52, 148, 78, 49, 184, 62, 188, 180, 103];

fn encode_by_hand(s: &str) -> [u8; 16] {
    let b64 = base64::encode(s);
    let mut h = sha1::Sha1::new();
    h.update(b64.as_bytes());
    let d = h.digest().bytes();
    let mut out = [0u8; 16];
    for k in 0..16 {
        out[k] = d[(k + 15) % 20];
    }
    out
}

#[test]
fn encode_package_name() {
    assert_eq!(encode("cn.jy.lazydict"), PKG);
}

#[test]
fn encode_other_texts() {
    assert_eq!(
        encode("abc"),
        [242, 210, 203, 202, 211, 216, 188, 233, 116, 101, 71, 187, 119, 67, 229, 147]
    );
    assert_eq!(
        encode(""),
        [144, 175, 216, 7, 9, 218, 57, 163, 238, 94, 107, 75, 13, 50, 85, 191]
    );
    assert_eq!(encode("x"), encode_by_hand("x"));
    assert_ne!(encode("x"), encode("y"));
}

const MANIFEST: &str = "Manifest-Version: 1.0\r\n\
Created-By: 1.0 (Android)\r\n\
\r\n\
Name: AndroidManifest.xml\r\n\
SHA1-Digest: aGVsbG8=\r\n\
\r\n\
Name: res/layout/activity_camera.xml\r\n\
SHA1-Digest: Y2FtZXJh\r\n\
\r\n\
Name: classes.dex\r\n\
SHA1-Digest: ZGV4ZGV4\r\n\
\r\n\
Name: res/layout/activity_splash.xml\r\n\
SHA1-Digest: c3BsYXNo\r\n\
\r\n";

#[test]
fn init_reads_all_digests() {
    let mut s = Signatures::new();
    assert!(init(&mut s, "cn.jy.lazydict", MANIFEST));
    assert_eq!(s.package, PKG);
    assert_eq!(s.manifest_xml, XML);
    assert_eq!(s.classes_dex, DEX);
    let mut views = [0u8; 32];
    views[..16].copy_from_slice(&CAMERA);
    views[16..].copy_from_slice(&SPLASH);
    assert_eq!(s.views, views);
    assert!(s.success);
}

#[test]
fn init_without_layouts_keeps_views() {
    let mut s = Signatures::new();
    let mf = "Name: classes.dex\nSHA1-Digest: ZGV4ZGV4\nName: AndroidManifest.xml\nSHA1-Digest:   aGVsbG8=  tail\n";
    assert!(init(&mut s, "x", mf));
    assert_eq!(s.package, encode_by_hand("x"));
    assert_eq!(s.manifest_xml, XML);
    assert_eq!(s.classes_dex, DEX);
    assert_eq!(s.views, [0u8; 32]);
    assert!(s.success);
}

#[test]
fn init_fails_on_a_line_without_digest() {
    let mut s = Signatures::new();
    let mf = "Name: AndroidManifest.xml\nSHA1-Digest:\nName: classes.dex\n";
    assert!(!init(&mut s, "cn.jy.lazydict", mf));
    assert_eq!(s.package, PKG);
    assert_eq!(s.manifest_xml, [0u8; 16]);
    assert!(!s.success);
}

#[test]
fn init_of_an_empty_manifest() {
    let mut s = Signatures::new();
    assert!(init(&mut s, "cn.jy.lazydict", ""));
    assert_eq!(s.package, PKG);
    assert_eq!(s.manifest_xml, [0u8; 16]);
    assert_eq!(s.views, [0u8; 32]);
    assert!(s.success);
}

#[test]
fn init_keeps_earlier_digests() {
    let mut s = Signatures::new();
    assert!(init(&mut s, "cn.jy.lazydict", MANIFEST));
    assert!(init(&mut s, "x", "nothing here\n"));
    assert_eq!(s.package, encode_by_hand("x"));
    assert_eq!(s.manifest_xml, XML);
    assert_eq!(s.classes_dex, DEX);
}
