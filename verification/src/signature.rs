use crate::text::{chars_of, contains_at, line_bounds, second_word_at};
use sha1::Sha1;
use vstd::prelude::*;

verus! {

/// The text `base64::encode` gives for the UTF-8 bytes of a text (standard alphabet,
/// padded).
pub uninterp spec fn base64_text(text: Seq<char>) -> Seq<char>;

/// The 20-byte SHA-1 digest (`sha1::Sha1`) of the UTF-8 bytes of a text.
pub uninterp spec fn sha1_text(text: Seq<char>) -> Seq<u8>;

/// The text that `base64::decode` gives for a text, its bytes read as UTF-8; `None` where
/// the text is not base64 or the bytes are not UTF-8.
pub uninterp spec fn base64_decoded_text(text: Seq<char>) -> Option<Seq<char>>;

/// `base64::encode(text)`: the result is named by [`base64_text`].
#[verifier::external_body]
fn base64_encode(text: &str) -> (b64: String)
    ensures
        b64@ == base64_text(text@),
{
    base64::encode(text)
}

/// `Sha1::new()`, `update` with the text's bytes, then `digest().bytes()`: the digest is
/// named by [`sha1_text`].
#[verifier::external_body]
fn sha1_digest(text: &str) -> (digest: [u8; 20])
    ensures
        digest@ == sha1_text(text@),
{
    let mut hasher = Sha1::new();
    hasher.update(text.as_bytes());
    hasher.digest().bytes()
}

/// `base64::decode(text)` with the bytes read as UTF-8 text: the result is named by
/// [`base64_decoded_text`]; `None` stands for either failure.
#[verifier::external_body]
fn decode_base64(text: &str) -> (decoded: Option<String>)
    ensures
        match decoded {
            Some(t) => base64_decoded_text(text@) == Some(t@),
            None => base64_decoded_text(text@) is None,
        },
{
    match base64::decode(text) {
        Ok(bytes) => String::from_utf8(bytes).ok(),
        Err(_) => None,
    }
}

/// The 16 bytes kept of a 20-byte digest: the digest is turned left by 13 bytes and bytes
/// 2 to 17 of the result are kept.
pub open spec fn digest_part(d: Seq<u8>) -> Seq<u8> {
    Seq::new(16, |k: int| d[(k + 15) % 20])
}

/// The obscured digest of a text: the SHA-1 digest of its base64 text, cut down by
/// [`digest_part`].
pub open spec fn encoded(text: Seq<char>) -> Seq<u8> {
    digest_part(sha1_text(base64_text(text)))
}

/// The obscured digest of a text (see [`encoded`]).
pub fn encode(s: &str) -> (code: [u8; 16])
    ensures
        code@ == encoded(s@),
{
    let base64 = base64_encode(s);
    let sha1 = sha1_digest(base64.as_str());
    let mut rotated: [u8; 20] = [0; 20];
    let mut i: usize = 0;
    while i < 20
        invariant
            i <= 20,
            sha1@.len() == 20,
            forall|k: int| 0 <= k < i ==> #[trigger] rotated@[k] == sha1@[(k + 13) % 20],
        decreases 20 - i,
    {
        rotated[i] = sha1[(i + 13) % 20];
        i += 1;
    }
    let code = [
        rotated[2],
        rotated[3],
        rotated[4],
        rotated[5],
        rotated[6],
        rotated[7],
        rotated[8],
        rotated[9],
        rotated[10],
        rotated[11],
        rotated[12],
        rotated[13],
        rotated[14],
        rotated[15],
        rotated[16],
        rotated[17],
    ];
    proof {
        assert forall|k: int| 0 <= k < 16 implies #[trigger] code@[k] == digest_part(
            sha1_text(base64_text(s@)),
        )[k] by {
            assert(code@[k] == rotated@[k + 2]);
        }
        assert(code@ =~= encoded(s@));
    }
    code
}

/// The obscured digest of the second word of line `s[a..e]`, where there is one.
pub open spec fn line_digest(s: Seq<char>, a: int, e: int) -> Option<Seq<u8>> {
    match crate::text::second_word(s, a, e) {
        Some(w) => Some(encoded(s.subrange(w.0, w.1))),
        None => None,
    }
}

/// The digests the signature check keeps, as sequences.
pub struct SignaturesModel {
    pub package: Seq<u8>,
    pub manifest_xml: Seq<u8>,
    pub classes_dex: Seq<u8>,
    pub views: Seq<u8>,
    pub success: bool,
}

/// What the scan of a manifest carries from line to line: the digests kept so far, the
/// progress on each entry (0 not seen, 1 its digest is due on this line, 2 read), the
/// layout digests read so far, and whether the scan has stopped.
pub struct ManifestScan {
    pub sig: SignaturesModel,
    pub xml: u8,
    pub dex: u8,
    pub view0: u8,
    pub view1: u8,
    pub view_data: Seq<u8>,
    pub stopped: bool,
}

/// Reads the digests due on line `s[a..e]`: each entry in progress 1 takes the obscured
/// digest of the line's second word and goes to progress 2 (the layouts into the first
/// and the second half of the layout digests). `false` where a digest is due and the
/// line has no second word.
pub open spec fn read_digests(st: ManifestScan, s: Seq<char>, a: int, e: int) -> (
    ManifestScan,
    bool,
) {
    if !(st.xml == 1 || st.dex == 1 || st.view0 == 1 || st.view1 == 1) {
        (st, true)
    } else {
        match line_digest(s, a, e) {
            None => (st, false),
            Some(d) => (
                ManifestScan {
                    sig: SignaturesModel {
                        package: st.sig.package,
                        manifest_xml: if st.xml == 1 {
                            d
                        } else {
                            st.sig.manifest_xml
                        },
                        classes_dex: if st.dex == 1 {
                            d
                        } else {
                            st.sig.classes_dex
                        },
                        views: st.sig.views,
                        success: st.sig.success,
                    },
                    xml: if st.xml == 1 {
                        2
                    } else {
                        st.xml
                    },
                    dex: if st.dex == 1 {
                        2
                    } else {
                        st.dex
                    },
                    view0: if st.view0 == 1 {
                        2
                    } else {
                        st.view0
                    },
                    view1: if st.view1 == 1 {
                        2
                    } else {
                        st.view1
                    },
                    view_data: (if st.view0 == 1 {
                        d
                    } else {
                        st.view_data.subrange(0, 16)
                    }) + (if st.view1 == 1 {
                        d
                    } else {
                        st.view_data.subrange(16, 32)
                    }),
                    stopped: st.stopped,
                },
                true,
            ),
        }
    }
}

/// After the reads of a line: where all four entries are read, the layout digests are
/// kept and the scan stops; otherwise each entry whose name (`nx`, `nd`, then the two
/// layout files) occurs on the line goes to progress 1. `false` where a name to look for
/// is missing (`None`).
pub open spec fn mark_entries(
    st: ManifestScan,
    line: Seq<char>,
    nx: Option<Seq<char>>,
    nd: Option<Seq<char>>,
) -> (ManifestScan, bool) {
    if st.xml == 2 && st.dex == 2 && st.view0 == 2 && st.view1 == 2 {
        (
            ManifestScan {
                sig: SignaturesModel {
                    package: st.sig.package,
                    manifest_xml: st.sig.manifest_xml,
                    classes_dex: st.sig.classes_dex,
                    views: st.view_data,
                    success: st.sig.success,
                },
                xml: st.xml,
                dex: st.dex,
                view0: st.view0,
                view1: st.view1,
                view_data: st.view_data,
                stopped: true,
            },
            true,
        )
    } else {
        match nx {
            None => (st, false),
            Some(x) => match nd {
                None => (
                    ManifestScan {
                        xml: if crate::text::has_part(line, x) {
                            1
                        } else {
                            st.xml
                        },
                        ..st
                    },
                    false,
                ),
                Some(dx) => (
                    ManifestScan {
                        xml: if crate::text::has_part(line, x) {
                            1
                        } else {
                            st.xml
                        },
                        dex: if crate::text::has_part(line, dx) {
                            1
                        } else {
                            st.dex
                        },
                        view0: if crate::text::has_part(line, "activity_camera.xml"@) {
                            1
                        } else {
                            st.view0
                        },
                        view1: if crate::text::has_part(line, "activity_splash.xml"@) {
                            1
                        } else {
                            st.view1
                        },
                        ..st
                    },
                    true,
                ),
            },
        }
    }
}

/// One line of the manifest, starting at `i`: its reads, then its marks.
pub open spec fn line_step(
    st: ManifestScan,
    s: Seq<char>,
    i: int,
    nx: Option<Seq<char>>,
    nd: Option<Seq<char>>,
) -> (ManifestScan, bool) {
    let e = crate::text::line_end(s, i);
    let r = read_digests(st, s, i, e);
    if !r.1 {
        r
    } else {
        mark_entries(r.0, s.subrange(i, e), nx, nd)
    }
}

/// The scan of the lines of `s` from index `i` on; `false` with the state at the line
/// where it fails.
pub open spec fn scan_text(
    st: ManifestScan,
    s: Seq<char>,
    i: int,
    nx: Option<Seq<char>>,
    nd: Option<Seq<char>>,
) -> (ManifestScan, bool)
    decreases s.len() - i,
{
    if i < 0 || i >= s.len() || st.stopped {
        (st, true)
    } else {
        let r = line_step(st, s, i, nx, nd);
        if !r.1 {
            r
        } else {
            proof {
                crate::text::lemma_newline_from(s, i);
            }
            scan_text(r.0, s, crate::text::next_line(s, i), nx, nd)
        }
    }
}

/// The digests the signature check keeps: of the package name, of the manifest's entries
/// for AndroidManifest.xml and classes.dex, of the two layout files (camera, then splash),
/// and whether the last check went through.
pub struct Signatures {
    pub package: [u8; 16],
    pub manifest_xml: [u8; 16],
    pub classes_dex: [u8; 16],
    pub views: [u8; 32],
    pub success: bool,
}

impl View for Signatures {
    type V = SignaturesModel;

    open spec fn view(&self) -> SignaturesModel {
        SignaturesModel {
            package: self.package@,
            manifest_xml: self.manifest_xml@,
            classes_dex: self.classes_dex@,
            views: self.views@,
            success: self.success,
        }
    }
}

impl Signatures {
    /// No digest read yet: all bytes zero, no check gone through.
    pub fn new() -> (s: Signatures)
        ensures
            s@.package == Seq::new(16, |i: int| 0u8),
            s@.manifest_xml == Seq::new(16, |i: int| 0u8),
            s@.classes_dex == Seq::new(16, |i: int| 0u8),
            s@.views == Seq::new(32, |i: int| 0u8),
            !s@.success,
    {
        let s = Signatures {
            package: [0; 16],
            manifest_xml: [0; 16],
            classes_dex: [0; 16],
            views: [0; 32],
            success: false,
        };
        assert(s@.package =~= Seq::new(16, |i: int| 0u8));
        assert(s@.manifest_xml =~= Seq::new(16, |i: int| 0u8));
        assert(s@.classes_dex =~= Seq::new(16, |i: int| 0u8));
        assert(s@.views =~= Seq::new(32, |i: int| 0u8));
        s
    }
}

/// The check of a package name and of the text of the package's META-INF/MANIFEST.MF,
/// from the digests kept before (`prev`): the package name's obscured digest is kept;
/// then the manifest is scanned line by line (see [`scan_text`]), looking for the names
/// that the base64 texts `QW5kcm9pZE1hbmlmZXN0LnhtbA==` and `Y2xhc3Nlcy5kZXg=` decode to
/// (AndroidManifest.xml and classes.dex) and for the two layout files. Where the scan
/// goes through, the check is marked as gone through; `false` with the digests kept up
/// to the line where it fails.
pub open spec fn init_model(prev: SignaturesModel, pkg: Seq<char>, mf: Seq<char>) -> (
    SignaturesModel,
    bool,
) {
    let start = init_start(prev, pkg);
    let r = scan_text(
        start,
        mf,
        0,
        base64_decoded_text("QW5kcm9pZE1hbmlmZXN0LnhtbA=="@),
        base64_decoded_text("Y2xhc3Nlcy5kZXg="@),
    );
    if r.1 {
        (
            SignaturesModel {
                package: r.0.sig.package,
                manifest_xml: r.0.sig.manifest_xml,
                classes_dex: r.0.sig.classes_dex,
                views: r.0.sig.views,
                success: true,
            },
            true,
        )
    } else {
        (r.0.sig, false)
    }
}

/// The obscured digest of the second word of line `t[a..e]` of the text `s`, where there
/// is one.
fn line_digest_at(s: &str, t: &Vec<char>, a: usize, e: usize) -> (d: Option<[u8; 16]>)
    requires
        t@ == s@,
        a <= e <= t.len(),
    ensures
        match d {
            Some(code) => line_digest(t@, a as int, e as int) == Some(code@),
            None => line_digest(t@, a as int, e as int) is None,
        },
{
    match second_word_at(t, a, e) {
        None => None,
        Some(w) => {
            let word = s.substring_char(w.0, w.1);
            Some(encode(word))
        },
    }
}

/// The scan state with the given digests, progress and layout digests, not stopped.
pub open spec fn scan_state(
    sig: SignaturesModel,
    xml: u8,
    dex: u8,
    view0: u8,
    view1: u8,
    view_data: Seq<u8>,
) -> ManifestScan {
    ManifestScan { sig, xml, dex, view0, view1, view_data, stopped: false }
}

/// Copies a 16-byte digest into one half of the layout digests.
fn copy_half(view_data: &mut [u8; 32], d: &[u8; 16], second: bool)
    ensures
        final(view_data)@ == if second {
            old(view_data)@.subrange(0, 16) + d@
        } else {
            d@ + old(view_data)@.subrange(16, 32)
        },
{
    let ghost before = view_data@;
    let base: usize = if second {
        16
    } else {
        0
    };
    let mut k: usize = 0;
    while k < 16
        invariant
            base == (if second {
                16usize
            } else {
                0usize
            }),
            k <= 16,
            view_data@.len() == 32,
            forall|j: int|
                0 <= j < 32 ==> #[trigger] view_data@[j] == if base <= j < base + k {
                    d@[j - base]
                } else {
                    before[j]
                },
        decreases 16 - k,
    {
        view_data[base + k] = d[k];
        k += 1;
    }
    proof {
        if second {
            assert(view_data@ =~= before.subrange(0, 16) + d@);
        } else {
            assert(view_data@ =~= d@ + before.subrange(16, 32));
        }
    }
}

/// Checks a package name and the text of the package's META-INF/MANIFEST.MF (see
/// [`init_model`]), keeping the digests in `state`; `false` where a line that should hold
/// a digest has no second word, or a name to look for cannot be decoded.
#[verifier::rlimit(40)]
pub fn init(state: &mut Signatures, pkg_name: &str, manifest_mf: &str) -> (ok: bool)
    ensures
        (final(state)@, ok) == init_model(old(state)@, pkg_name@, manifest_mf@),
{
    let ghost prev = state@;
    state.package = encode(pkg_name);
    let text = chars_of(manifest_mf);
    let xml_name = decode_base64("QW5kcm9pZE1hbmlmZXN0LnhtbA==");
    let dex_name = decode_base64("Y2xhc3Nlcy5kZXg=");
    let ghost nx = base64_decoded_text("QW5kcm9pZE1hbmlmZXN0LnhtbA=="@);
    let ghost nd = base64_decoded_text("Y2xhc3Nlcy5kZXg="@);
    let xml_chars: Option<Vec<char>> = match &xml_name {
        Some(t) => Some(chars_of(t.as_str())),
        None => None,
    };
    let dex_chars: Option<Vec<char>> = match &dex_name {
        Some(t) => Some(chars_of(t.as_str())),
        None => None,
    };
    let camera = chars_of("activity_camera.xml");
    let splash = chars_of("activity_splash.xml");
    let mut read_xml: u8 = 0;
    let mut read_dex: u8 = 0;
    let mut read_view0: u8 = 0;
    let mut read_view1: u8 = 0;
    let mut view_data: [u8; 32] = [0; 32];
    assert(view_data@ =~= Seq::new(32, |i: int| 0u8));
    let ghost start = scan_state(state@, 0, 0, 0, 0, view_data@);
    assert(start == init_start(prev, pkg_name@));
    let mut i: usize = 0;
    while i < text.len()
        invariant_except_break
            scan_text(start, text@, 0, nx, nd) == scan_text(
                scan_state(state@, read_xml, read_dex, read_view0, read_view1, view_data@),
                text@,
                i as int,
                nx,
                nd,
            ),
        invariant
            text@ == manifest_mf@,
            start == init_start(prev, pkg_name@),
            prev == old(state)@,
            nx == base64_decoded_text("QW5kcm9pZE1hbmlmZXN0LnhtbA=="@),
            nd == base64_decoded_text("Y2xhc3Nlcy5kZXg="@),
            (xml_chars is Some) == (nx is Some),
            xml_chars is Some ==> xml_chars.unwrap()@ == nx.unwrap(),
            (dex_chars is Some) == (nd is Some),
            dex_chars is Some ==> dex_chars.unwrap()@ == nd.unwrap(),
            camera@ == "activity_camera.xml"@,
            splash@ == "activity_splash.xml"@,
            view_data@.len() == 32,
        ensures
            scan_text(start, text@, 0, nx, nd).1,
            scan_text(start, text@, 0, nx, nd).0.sig == state@,
        decreases text.len() - i,
    {
        let (e, next) = line_bounds(&text, i);
        let ghost st = scan_state(state@, read_xml, read_dex, read_view0, read_view1, view_data@);
        if read_xml == 1 || read_dex == 1 || read_view0 == 1 || read_view1 == 1 {
            match line_digest_at(manifest_mf, &text, i, e) {
                None => {
                    return false;
                },
                Some(d) => {
                    if read_xml == 1 {
                        state.manifest_xml = d;
                        read_xml = 2;
                    }
                    if read_dex == 1 {
                        state.classes_dex = d;
                        read_dex = 2;
                    }
                    if read_view0 == 1 {
                        copy_half(&mut view_data, &d, false);
                        read_view0 = 2;
                    }
                    if read_view1 == 1 {
                        copy_half(&mut view_data, &d, true);
                        read_view1 = 2;
                    }
                    proof {
                        let r = read_digests(st, text@, i as int, e as int);
                        assert(r.1);
                        assert(r.0.view_data =~= view_data@);
                        assert(r.0.sig == state@);
                        assert(r.0 == scan_state(state@, read_xml, read_dex, read_view0, read_view1, view_data@));
                    }
                },
            }
        }
        let ghost st2 = scan_state(state@, read_xml, read_dex, read_view0, read_view1, view_data@);
        assert(read_digests(st, text@, i as int, e as int) == (st2, true));
        if read_xml == 2 && read_dex == 2 && read_view0 == 2 && read_view1 == 2 {
            state.views = view_data;
            proof {
                let m = mark_entries(st2, text@.subrange(i as int, e as int), nx, nd);
                assert(m.0.sig == state@);
                assert(scan_text(m.0, text@, crate::text::next_line(text@, i as int), nx, nd) == (m.0, true));
            }
            break;
        }
        match &xml_chars {
            None => {
                return false;
            },
            Some(x) => {
                if contains_at(&text, i, e, x) {
                    read_xml = 1;
                }
            },
        }
        match &dex_chars {
            None => {
                return false;
            },
            Some(x) => {
                if contains_at(&text, i, e, x) {
                    read_dex = 1;
                }
            },
        }
        if contains_at(&text, i, e, &camera) {
            read_view0 = 1;
        }
        if contains_at(&text, i, e, &splash) {
            read_view1 = 1;
        }
        proof {
            let m = mark_entries(st2, text@.subrange(i as int, e as int), nx, nd);
            assert(m == (scan_state(state@, read_xml, read_dex, read_view0, read_view1, view_data@), true));
        }
        i = next;
    }
    state.success = true;
    true
}

/// The scan state at the start of [`init_model`].
pub open spec fn init_start(prev: SignaturesModel, pkg: Seq<char>) -> ManifestScan {
    scan_state(
        SignaturesModel {
            package: encoded(pkg),
            manifest_xml: prev.manifest_xml,
            classes_dex: prev.classes_dex,
            views: prev.views,
            success: prev.success,
        },
        0,
        0,
        0,
        0,
        Seq::new(32, |i: int| 0u8),
    )
}

proof fn lemma_scan_keeps_package(
    st: ManifestScan,
    s: Seq<char>,
    i: int,
    nx: Option<Seq<char>>,
    nd: Option<Seq<char>>,
)
    ensures
        scan_text(st, s, i, nx, nd).0.sig.package == st.sig.package,
    decreases s.len() - i,
{
    if !(i < 0 || i >= s.len() || st.stopped) {
        let r = line_step(st, s, i, nx, nd);
        if r.1 {
            crate::text::lemma_newline_from(s, i);
            lemma_scan_keeps_package(r.0, s, crate::text::next_line(s, i), nx, nd);
        }
    }
}

/// The check keeps the obscured digest of the package name, whatever the manifest holds
/// and whether or not its scan goes through.
pub proof fn law_init_keeps_package_digest(prev: SignaturesModel, pkg: Seq<char>, mf: Seq<char>)
    ensures
        init_model(prev, pkg, mf).0.package == encoded(pkg),
{
    lemma_scan_keeps_package(
        init_start(prev, pkg),
        mf,
        0,
        base64_decoded_text("QW5kcm9pZE1hbmlmZXN0LnhtbA=="@),
        base64_decoded_text("Y2xhc3Nlcy5kZXg="@),
    );
}

} // verus!
