use vstd::prelude::*;
use vstd::string::StringSliceAdditionalSpecFns;

use crate::text::{eq_ignore_ascii_case, lower_seq, push_str};

verus! {

/// Bytes a content id spans.
pub const CONTENT_ID_LEN: usize = 36;

pub open spec fn is_ascii_upper_byte(b: u8) -> bool {
    0x41 <= b && b <= 0x5a
}

/// A content id (`XX0000-XXXX00000_00-...`) starts at byte `i`.
pub open spec fn content_id_at(b: Seq<u8>, i: int) -> bool {
    &&& b[i + 6] == 0x2d
    &&& b[i + 16] == 0x5f
    &&& b[i + 17] == 0x30
    &&& b[i + 18] == 0x30
    &&& b[i + 19] == 0x2d
    &&& is_ascii_upper_byte(b[i])
    &&& is_ascii_upper_byte(b[i + 1])
}

/// The first byte position at or after `i` where a content id starts, or -1.
pub open spec fn first_content_id(b: Seq<u8>, i: int) -> int
    decreases b.len() - i,
{
    if i < 0 || i + 36 > b.len() {
        -1
    } else if content_id_at(b, i) {
        i
    } else {
        first_content_id(b, i + 1)
    }
}

/// The last window the scan looks at: the match, or the last possible one.
pub open spec fn scan_end(b: Seq<u8>) -> int {
    if first_content_id(b, 0) >= 0 {
        first_content_id(b, 0)
    } else {
        b.len() - 36
    }
}

/// Every window the scan cuts out starts and ends on a character boundary.
pub open spec fn windows_on_boundaries(b: Seq<u8>) -> bool {
    forall|i: int|
        0 <= i <= scan_end(b) ==> vstd::utf8::is_char_boundary(b, i) && vstd::utf8::is_char_boundary(
            b,
            #[trigger] (i + 36),
        )
}

proof fn lemma_first_content_id(b: Seq<u8>, i: int)
    requires
        0 <= i,
    ensures
        first_content_id(b, i) == -1 || (i <= first_content_id(b, i) && first_content_id(b, i) + 36 <= b.len()
            && content_id_at(b, first_content_id(b, i))),
        first_content_id(b, i) == -1 ==> forall|k: int| i <= k && k + 36 <= b.len() ==> !content_id_at(b, k),
    decreases b.len() - i,
{
    if i + 36 <= b.len() && !content_id_at(b, i) {
        lemma_first_content_id(b, i + 1);
    }
}

/// The content id embedded in a download URL: the first 36-byte window that
/// has its shape.
pub fn extract_content_id_from_url(url: &str) -> (r: Option<String>)
    requires
        windows_on_boundaries(url.spec_bytes()),
    ensures
        first_content_id(url.spec_bytes(), 0) < 0 ==> r is None,
        first_content_id(url.spec_bytes(), 0) >= 0 ==> (r matches Some(s) && vstd::utf8::encode_utf8(s@)
            == url.spec_bytes().subrange(
            first_content_id(url.spec_bytes(), 0),
            first_content_id(url.spec_bytes(), 0) + 36,
        )),
{
    let bytes = url.as_bytes();
    if bytes.len() < CONTENT_ID_LEN {
        return None;
    }
    let last = bytes.len() - CONTENT_ID_LEN;
    let mut i: usize = 0;
    proof {
        assert(bytes@.len() == bytes.len());
    }
    while i <= last
        invariant
            bytes@ == url.spec_bytes(),
            windows_on_boundaries(bytes@),
            bytes@.len() <= usize::MAX,
            last + 36 == bytes@.len(),
            i <= last + 1,
            first_content_id(bytes@, 0) == first_content_id(bytes@, i as int),
        decreases last + 1 - i,
    {
        if bytes[i + 6] == 0x2d && bytes[i + 16] == 0x5f && bytes[i + 17] == 0x30 && bytes[i + 18] == 0x30
            && bytes[i + 19] == 0x2d && 0x41 <= bytes[i] && bytes[i] <= 0x5a && 0x41 <= bytes[i + 1]
            && bytes[i + 1] <= 0x5a {
            let ghost b = bytes@;
            proof {
                lemma_first_content_id(b, i as int);
                assert(first_content_id(b, i as int) == i);
                assert(scan_end(b) == i);
                assert(vstd::utf8::is_char_boundary(b, i + 36));
                vstd::utf8::encode_utf8_valid_utf8(url@);
            }
            let (_, tail) = url.split_at(i);
            proof {
                let t = tail.spec_bytes();
                vstd::utf8::valid_utf8_split(b, i as int);
                assert(t =~= b.subrange(i as int, b.len() as int));
                if i + 36 == b.len() {
                    vstd::utf8::is_char_boundary_start_end_of_seq(t);
                } else {
                    vstd::utf8::is_char_boundary_iff_not_is_continuation_byte(b, i + 36);
                    vstd::utf8::is_char_boundary_iff_not_is_continuation_byte(t, 36);
                    assert(t[36] == b[i + 36]);
                }
            }
            let (window, _) = tail.split_at(CONTENT_ID_LEN);
            proof {
                assert(window.spec_bytes() =~= b.subrange(i as int, i + 36));
            }
            return Some(window.to_owned());
        }
        i = i + 1;
    }
    None
}

/// A content id in a URL is found at the first byte position `k` where a
/// 36-byte window starts with two ASCII capitals and has `-` at 6, `_00-` at
/// 16, and no such window starts earlier; with no such window there is none.
pub proof fn law_url_content_id(b: Seq<u8>, k: int)
    ensures
        (0 <= k && k + 36 <= b.len() && b[k + 6] == 45 && b[k + 16] == 95 && b[k + 17] == 48 && b[k + 18] == 48
            && b[k + 19] == 45 && 65 <= b[k] <= 90 && 65 <= b[k + 1] <= 90 && forall|j: int|
            #![trigger b[j + 6]]
            0 <= j < k ==> !(b[j + 6] == 45 && b[j + 16] == 95 && b[j + 17] == 48 && b[j + 18] == 48 && b[j + 19] == 45
                && 65 <= b[j] <= 90 && 65 <= b[j + 1] <= 90)) ==> first_content_id(b, 0) == k,
        first_content_id(b, 0) == k && k >= 0 ==> k + 36 <= b.len() && b[k + 6] == 45 && b[k + 16] == 95 && b[k + 17]
            == 48 && b[k + 18] == 48 && b[k + 19] == 45 && 65 <= b[k] <= 90 && 65 <= b[k + 1] <= 90,
        first_content_id(b, 0) < 0 ==> forall|j: int|
            #![trigger b[j + 6]]
            0 <= j && j + 36 <= b.len() ==> !(b[j + 6] == 45 && b[j + 16] == 95 && b[j + 17] == 48 && b[j + 18] == 48
                && b[j + 19] == 45 && 65 <= b[j] <= 90 && 65 <= b[j + 1] <= 90),
{
    lemma_first_content_id(b, 0);
    if 0 <= k && k + 36 <= b.len() && content_id_at(b, k) && forall|j: int|
        #![trigger b[j + 6]]
        0 <= j < k ==> !(b[j + 6] == 45 && b[j + 16] == 95 && b[j + 17] == 48 && b[j + 18] == 48 && b[j + 19] == 45
            && 65 <= b[j] <= 90 && 65 <= b[j + 1] <= 90) {
        lemma_scan_reaches(b, 0, k);
    }
    if first_content_id(b, 0) < 0 {
        assert forall|j: int|
            #![trigger b[j + 6]]
            0 <= j && j + 36 <= b.len() implies !(b[j + 6] == 45 && b[j + 16] == 95 && b[j + 17] == 48 && b[j + 18]
                == 48 && b[j + 19] == 45 && 65 <= b[j] <= 90 && 65 <= b[j + 1] <= 90) by {
            assert(!content_id_at(b, j));
        }
    }
}

proof fn lemma_scan_reaches(b: Seq<u8>, i: int, k: int)
    requires
        0 <= i <= k,
        k + 36 <= b.len(),
        content_id_at(b, k),
        forall|j: int| #![trigger b[j + 6]] i <= j < k ==> !content_id_at(b, j),
    ensures
        first_content_id(b, i) == k,
    decreases k - i,
{
    if i < k {
        assert(!content_id_at(b, i)) by {
            assert(b[i + 6] == b[i + 6]);
        }
        lemma_scan_reaches(b, i + 1, k);
    }
}

/// Why no content id could be found.
#[derive(Debug, Clone, Copy, PartialEq, Eq, Structural)]
pub enum LicenseError {
    /// Neither a content id, one in the URL, nor a title id was given.
    NoIdentifier,
}

/// The content id region prefix for a catalogue region.
pub open spec fn region_prefix(region: Option<Seq<char>>) -> Seq<char> {
    match region {
        Some(r) => if lower_seq(r) == lower_seq("EU"@) {
            "EP"@
        } else if lower_seq(r) == lower_seq("JP"@) {
            "JP"@
        } else {
            "UP"@
        },
        None => "UP"@,
    }
}

/// The content id a title is installed under: the one the catalogue names,
/// else the one in its download URL, else one made from the title id and
/// region.
pub open spec fn resolved_content_id(
    title_id: Seq<char>,
    content_id: Option<Seq<char>>,
    url_bytes: Seq<u8>,
    region: Option<Seq<char>>,
) -> Result<Seq<char>, LicenseError> {
    if content_id matches Some(c) && c.len() > 0 {
        Ok(content_id->0)
    } else if first_content_id(url_bytes, 0) >= 0 {
        Ok(vstd::utf8::decode_utf8(url_bytes.subrange(first_content_id(url_bytes, 0), first_content_id(url_bytes, 0) + 36)))
    } else if title_id.len() == 0 {
        Err(LicenseError::NoIdentifier)
    } else {
        Ok(region_prefix(region) + "0001-"@ + title_id + "_00-0000000000000000"@)
    }
}

pub open spec fn opt_str(s: Option<&str>) -> Option<Seq<char>> {
    match s {
        Some(t) => Some(t@),
        None => None,
    }
}

/// The content id a title is installed under.
pub fn resolve_content_id(title_id: &str, content_id: Option<&str>, download_url: &str, region: Option<&str>) -> (r: Result<String, LicenseError>)
    requires
        windows_on_boundaries(download_url.spec_bytes()),
    ensures
        match r {
            Ok(s) => resolved_content_id(title_id@, opt_str(content_id), download_url.spec_bytes(), opt_str(region))
                == Ok::<Seq<char>, LicenseError>(s@),
            Err(e) => resolved_content_id(title_id@, opt_str(content_id), download_url.spec_bytes(), opt_str(region))
                == Err::<Seq<char>, LicenseError>(e),
        },
{
    match content_id {
        Some(id) => {
            if !id.is_empty() {
                return Ok(id.to_owned());
            }
        },
        None => {},
    }
    match extract_content_id_from_url(download_url) {
        Some(id) => {
            proof {
                vstd::utf8::encode_utf8_decode_utf8(id@);
            }
            return Ok(id);
        },
        None => {},
    }
    if title_id.is_empty() {
        return Err(LicenseError::NoIdentifier);
    }
    let prefix = match region {
        Some(r) => if eq_ignore_ascii_case(r, "EU") {
            "EP"
        } else if eq_ignore_ascii_case(r, "JP") {
            "JP"
        } else {
            "UP"
        },
        None => "UP",
    };
    let mut out = prefix.to_owned();
    push_str(&mut out, "0001-");
    push_str(&mut out, title_id);
    push_str(&mut out, "_00-0000000000000000");
    Ok(out)
}

/// Bytes of a license file.
pub const RIF_LEN: usize = 512;

/// Most bytes of the content id a made-up license holds.
pub const RIF_CONTENT_ID_MAX: usize = 47;

/// The bytes of a made-up license for `cid` (its content id bytes): zero
/// but for a fixed key at 8..16, the content id (at most 47 bytes) from 16,
/// and 0xFF over 0x70..0x98.
pub open spec fn fake_license_spec(cid: Seq<u8>) -> Seq<u8> {
    let key = seq![0xEFu8, 0xCDu8, 0xABu8, 0x89u8, 0x67u8, 0x45u8, 0x23u8, 0x01u8];
    let n = if cid.len() < RIF_CONTENT_ID_MAX {
        cid.len() as int
    } else {
        RIF_CONTENT_ID_MAX as int
    };
    Seq::new(
        RIF_LEN as nat,
        |i: int|
            if 8 <= i < 16 {
                key[i - 8]
            } else if 16 <= i < 16 + n {
                cid[i - 16]
            } else if 0x70 <= i < 0x98 {
                0xFFu8
            } else {
                0u8
            },
    )
}

/// A made-up license is 512 bytes: the key `EF CD AB 89 67 45 23 01` at 8,
/// the content id's bytes from 16 (at most 47 of them, so a zero byte always
/// ends it before 0x40), 0xFF over 0x70 to 0x97, and zero everywhere else.
pub proof fn law_fake_license_layout(cid: Seq<u8>)
    ensures
        fake_license_spec(cid).len() == 512,
        fake_license_spec(cid).subrange(8, 16) == seq![0xEFu8, 0xCDu8, 0xABu8, 0x89u8, 0x67u8, 0x45u8, 0x23u8, 0x01u8],
        forall|j: int| 0 <= j < cid.len() && j < 47 ==> #[trigger] fake_license_spec(cid)[16 + j] == cid[j],
        forall|j: int| 0x70 <= j < 0x98 ==> #[trigger] fake_license_spec(cid)[j] == 0xFF,
        forall|j: int|
            0 <= j < 512 && !(8 <= j < 16) && !(16 <= j < 16 + cid.len() && j < 63) && !(0x70 <= j < 0x98)
                ==> #[trigger] fake_license_spec(cid)[j] == 0,
{
    assert(fake_license_spec(cid).subrange(8, 16) =~= seq![0xEFu8, 0xCDu8, 0xABu8, 0x89u8, 0x67u8, 0x45u8, 0x23u8, 0x01u8]);
}

/// A made-up license that lets a title without a real one start.
pub fn create_fake_license(content_id: &str) -> (rif: Vec<u8>)
    ensures
        rif@ == fake_license_spec(content_id.spec_bytes()),
{
    let cid = content_id.as_bytes();
    let n = if cid.len() < RIF_CONTENT_ID_MAX {
        cid.len()
    } else {
        RIF_CONTENT_ID_MAX
    };
    let key: [u8; 8] = [0xEF, 0xCD, 0xAB, 0x89, 0x67, 0x45, 0x23, 0x01];
    let mut rif: Vec<u8> = Vec::new();
    let mut i: usize = 0;
    while i < RIF_LEN
        invariant
            cid@ == content_id.spec_bytes(),
            n <= cid@.len(),
            n <= RIF_CONTENT_ID_MAX,
            n == cid@.len() || n == RIF_CONTENT_ID_MAX,
            cid@.len() < RIF_CONTENT_ID_MAX ==> n == cid@.len(),
            key@ == seq![0xEFu8, 0xCDu8, 0xABu8, 0x89u8, 0x67u8, 0x45u8, 0x23u8, 0x01u8],
            i <= RIF_LEN,
            rif@ == fake_license_spec(cid@).take(i as int),
        decreases RIF_LEN - i,
    {
        let b: u8 = if 8 <= i && i < 16 {
            key[i - 8]
        } else if 16 <= i && i < 16 + n {
            cid[i - 16]
        } else if 0x70 <= i && i < 0x98 {
            0xFF
        } else {
            0
        };
        rif.push(b);
        proof {
            assert(rif@ =~= fake_license_spec(cid@).take(i as int + 1));
        }
        i = i + 1;
    }
    proof {
        assert(fake_license_spec(cid@).take(i as int) =~= fake_license_spec(cid@));
    }
    rif
}

/// The license to install with a download: the decoded `zRIF` when the
/// catalogue gave one that decoded, else a made-up one for the resolved
/// content id, else none.
pub fn get_license(
    title_id: &str,
    content_id: Option<&str>,
    download_url: &str,
    decoded_zrif: Option<Vec<u8>>,
    region: Option<&str>,
) -> (r: Option<Vec<u8>>)
    requires
        windows_on_boundaries(download_url.spec_bytes()),
    ensures
        decoded_zrif is Some ==> r == decoded_zrif,
        decoded_zrif is None ==> match resolved_content_id(
            title_id@,
            opt_str(content_id),
            download_url.spec_bytes(),
            opt_str(region),
        ) {
            Ok(c) => r matches Some(v) && v@ == fake_license_spec(vstd::utf8::encode_utf8(c)),
            Err(_) => r is None,
        },
{
    match decoded_zrif {
        Some(rif) => return Some(rif),
        None => {},
    }
    match resolve_content_id(title_id, content_id, download_url, region) {
        Ok(cid) => Some(create_fake_license(cid.as_str())),
        Err(_) => None,
    }
}


/// Where the license of a content id is installed.
pub open spec fn license_path_spec(content_id: Seq<char>) -> Seq<char> {
    "ux0:license/app/"@ + content_id + ".rif"@
}

/// Where the license of a content id is installed.
pub fn license_path(content_id: &str) -> (r: String)
    ensures
        r@ == license_path_spec(content_id@),
{
    let mut r = "ux0:license/app/".to_owned();
    push_str(&mut r, content_id);
    push_str(&mut r, ".rif");
    r
}

/// How a content id is found: a non-empty one from the catalogue is taken
/// as it is; failing that, one in the download URL; failing that, one is
/// made from the title id as `XX0001-<title id>_00-0000000000000000`, where
/// `XX` is `JP` for the Japanese region, `EP` for the European one and `UP`
/// otherwise (regions compared ignoring ASCII case); with no title id
/// either, there is none.
pub proof fn law_content_id_regions(title_id: Seq<char>, content_id: Option<Seq<char>>, url_bytes: Seq<u8>, region: Option<Seq<char>>)
    ensures
        (content_id matches Some(c) && c.len() > 0) ==> resolved_content_id(title_id, content_id, url_bytes, region)
            == Ok::<Seq<char>, LicenseError>(content_id->0),
        ({
            let made = !(content_id matches Some(c) && c.len() > 0) && first_content_id(url_bytes, 0) < 0;
            &&& made && title_id.len() == 0 ==> resolved_content_id(title_id, content_id, url_bytes, region)
                == Err::<Seq<char>, LicenseError>(LicenseError::NoIdentifier)
            &&& made && title_id.len() > 0 && (region matches Some(r) && lower_seq(r) == seq!['j', 'p'])
                ==> resolved_content_id(title_id, content_id, url_bytes, region) == Ok::<Seq<char>, LicenseError>(
                seq!['J', 'P'] + "0001-"@ + title_id + "_00-0000000000000000"@,
            )
            &&& made && title_id.len() > 0 && (region matches Some(r) && lower_seq(r) == seq!['e', 'u'])
                ==> resolved_content_id(title_id, content_id, url_bytes, region) == Ok::<Seq<char>, LicenseError>(
                seq!['E', 'P'] + "0001-"@ + title_id + "_00-0000000000000000"@,
            )
            &&& made && title_id.len() > 0 && !(region matches Some(r) && (lower_seq(r) == seq!['j', 'p'] || lower_seq(r)
                == seq!['e', 'u'])) ==> resolved_content_id(title_id, content_id, url_bytes, region) == Ok::<
                Seq<char>,
                LicenseError,
            >(seq!['U', 'P'] + "0001-"@ + title_id + "_00-0000000000000000"@)
        }),
{
    reveal_strlit("JP");
    reveal_strlit("EU");
    reveal_strlit("EP");
    reveal_strlit("UP");
    assert(lower_seq("JP"@) =~= seq!['j', 'p']);
    assert(lower_seq("EU"@) =~= seq!['e', 'u']);
    assert("JP"@ =~= seq!['J', 'P']);
    assert("EP"@ =~= seq!['E', 'P']);
    assert("UP"@ =~= seq!['U', 'P']);
}

} // verus!
