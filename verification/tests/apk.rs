use lazydict::apk::{apk_file_path, package_name};

#[test]
fn package_name_drops_nuls_at_both_ends() {
    assert_eq!(package_name("cn.jy.lazydict\0\0\0"), "cn.jy.lazydict");
    assert_eq!(package_name("\0cn.jy\0lazydict\0"), "cn.jy\0lazydict");
    assert_eq!(package_name("\0\0"), "");
    assert_eq!(package_name(""), "");
}

const MAPS: &str = "12c00000-32c00000 rw-p 00000000 00:00 0    [anon:dalvik-main space]\n\
7f1c2000-7f1c3000 r--p 00000000 fd:00 123  /system/framework/framework.apk\n\
7f3a1000-7f3b2000 r--p 00000000 fd:00 456  /data/app/cn.jy.lazydict-1/base.apk\n\
7f4a1000-7f4b2000 r-xp 00000000 fd:00 456  /data/app/cn.jy.lazydict-2/base.apk extra\r\n\
7f5a1000-7f5b2000 r-xp 00000000 fd:00 789  /data/app/other.app-1/base.apk\n";

#[test]
fn apk_file_path_takes_the_last_matching_line() {
    assert_eq!(
        apk_file_path(MAPS, "cn.jy.lazydict"),
        "/data/app/cn.jy.lazydict-2/base.apk"
    );
}

#[test]
fn apk_file_path_needs_the_package() {
    assert_eq!(apk_file_path(MAPS, "no.such.package"), "");
    assert_eq!(apk_file_path("", "cn.jy.lazydict"), "");
}

#[test]
fn apk_file_path_needs_a_base_apk_piece() {
    let maps = "a b /data/app/cn.jy.lazydict-1/split.apk\n";
    assert_eq!(apk_file_path(maps, "cn.jy.lazydict"), "");
    let maps = "x cn.jy.lazydict base.apkfoo.apk /p/base.apk\n";
    assert_eq!(apk_file_path(maps, "cn.jy.lazydict"), "/p/base.apk");
}
