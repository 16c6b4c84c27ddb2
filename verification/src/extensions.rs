//! Which files are taken for images: those whose extension, lowercased, is
//! one of the raw, image or movie formats below.

use vstd::prelude::*;
use crate::path::{extension_of, extension_of_name, file_name, file_name_of};
use vstd::utf8::{decode_utf8, valid_utf8};
use crate::text::{lowercase, str_eq, to_lowercase, utf8_str};

verus! {

/// Raw camera formats.
pub open spec fn is_raw_extension(lower: Seq<char>) -> bool {
    ||| lower == "3fr"@
    ||| lower == "ari"@
    ||| lower == "arw"@
    ||| lower == "bay"@
    ||| lower == "cap"@
    ||| lower == "cr2"@
    ||| lower == "cr3"@
    ||| lower == "crw"@
    ||| lower == "data"@
    ||| lower == "dcr"@
    ||| lower == "dcs"@
    ||| lower == "dng"@
    ||| lower == "drf"@
    ||| lower == "eip"@
    ||| lower == "erf"@
    ||| lower == "fff"@
    ||| lower == "gpr"@
    ||| lower == "iiq"@
    ||| lower == "k25"@
    ||| lower == "kdc"@
    ||| lower == "mdc"@
    ||| lower == "mef"@
    ||| lower == "mos"@
    ||| lower == "mrw"@
    ||| lower == "nef"@
    ||| lower == "nrw"@
    ||| lower == "obm"@
    ||| lower == "orf"@
    ||| lower == "pef"@
    ||| lower == "ptx"@
    ||| lower == "pxn"@
    ||| lower == "r3d"@
    ||| lower == "raf"@
    ||| lower == "raw"@
    ||| lower == "rw2"@
    ||| lower == "rwl"@
    ||| lower == "rwz"@
    ||| lower == "sr2"@
    ||| lower == "srf"@
    ||| lower == "srw"@
    ||| lower == "x3f"@
}

/// Other image formats.
pub open spec fn is_picture_extension(lower: Seq<char>) -> bool {
    ||| lower == "avif"@
    ||| lower == "bmp"@
    ||| lower == "fpx"@
    ||| lower == "gif"@
    ||| lower == "heic"@
    ||| lower == "heif"@
    ||| lower == "j2k"@
    ||| lower == "jfif"@
    ||| lower == "jif"@
    ||| lower == "jp2"@
    ||| lower == "jpeg"@
    ||| lower == "jpg"@
    ||| lower == "jpx"@
    ||| lower == "pcd"@
    ||| lower == "png"@
    ||| lower == "psd"@
    ||| lower == "tif"@
    ||| lower == "tiff"@
    ||| lower == "webp"@
}

/// Movie formats.
pub open spec fn is_movie_extension(lower: Seq<char>) -> bool {
    ||| lower == "264"@
    ||| lower == "3g2"@
    ||| lower == "3gp"@
    ||| lower == "amv"@
    ||| lower == "asf"@
    ||| lower == "avi"@
    ||| lower == "cine"@
    ||| lower == "drc"@
    ||| lower == "f4a"@
    ||| lower == "f4b"@
    ||| lower == "f4p"@
    ||| lower == "f4v"@
    ||| lower == "flv"@
    ||| lower == "gifv"@
    ||| lower == "m2ts"@
    ||| lower == "m2v"@
    ||| lower == "m4p"@
    ||| lower == "m4v"@
    ||| lower == "mkv"@
    ||| lower == "mng"@
    ||| lower == "mp4"@
    ||| lower == "mpeg"@
    ||| lower == "mpg"@
    ||| lower == "mts"@
    ||| lower == "mxf"@
    ||| lower == "nsv"@
    ||| lower == "ogg"@
    ||| lower == "qt"@
    ||| lower == "roq"@
    ||| lower == "svi"@
    ||| lower == "vob"@
    ||| lower == "wmv"@
    ||| lower == "yuv"@
}

/// A lowercase extension of the files that are moved.
pub open spec fn is_image_extension(lower: Seq<char>) -> bool {
    is_raw_extension(lower) || is_picture_extension(lower) || is_movie_extension(lower)
}

/// Whether a file of this name (its bytes) is moved: its extension (as
/// `Path::extension` reads it) is valid UTF-8 and, lowercased, an image
/// extension.
pub open spec fn has_image_extension_spec(name: Seq<u8>) -> bool {
    match file_name_of(name) {
        Some(f) => match extension_of(f) {
            Some(e) => valid_utf8(e) && is_image_extension(lowercase(decode_utf8(e))),
            None => false,
        },
        None => false,
    }
}

/// Every raw, image and movie format that is moved, by its lowercase
/// extension, is accepted: camera raw formats, common image formats
/// (`jpeg` and `jpg` among them) and movie formats.
pub proof fn lemma_listed_extensions_accepted()
    ensures
        is_image_extension("3fr"@),
        is_image_extension("ari"@),
        is_image_extension("arw"@),
        is_image_extension("bay"@),
        is_image_extension("cap"@),
        is_image_extension("cr2"@),
        is_image_extension("cr3"@),
        is_image_extension("crw"@),
        is_image_extension("data"@),
        is_image_extension("dcr"@),
        is_image_extension("dcs"@),
        is_image_extension("dng"@),
        is_image_extension("drf"@),
        is_image_extension("eip"@),
        is_image_extension("erf"@),
        is_image_extension("fff"@),
        is_image_extension("gpr"@),
        is_image_extension("iiq"@),
        is_image_extension("k25"@),
        is_image_extension("kdc"@),
        is_image_extension("mdc"@),
        is_image_extension("mef"@),
        is_image_extension("mos"@),
        is_image_extension("mrw"@),
        is_image_extension("nef"@),
        is_image_extension("nrw"@),
        is_image_extension("obm"@),
        is_image_extension("orf"@),
        is_image_extension("pef"@),
        is_image_extension("ptx"@),
        is_image_extension("pxn"@),
        is_image_extension("r3d"@),
        is_image_extension("raf"@),
        is_image_extension("raw"@),
        is_image_extension("rw2"@),
        is_image_extension("rwl"@),
        is_image_extension("rwz"@),
        is_image_extension("sr2"@),
        is_image_extension("srf"@),
        is_image_extension("srw"@),
        is_image_extension("x3f"@),
        is_image_extension("avif"@),
        is_image_extension("bmp"@),
        is_image_extension("fpx"@),
        is_image_extension("gif"@),
        is_image_extension("heic"@),
        is_image_extension("heif"@),
        is_image_extension("j2k"@),
        is_image_extension("jfif"@),
        is_image_extension("jif"@),
        is_image_extension("jp2"@),
        is_image_extension("jpeg"@),
        is_image_extension("jpg"@),
        is_image_extension("jpx"@),
        is_image_extension("pcd"@),
        is_image_extension("png"@),
        is_image_extension("psd"@),
        is_image_extension("tif"@),
        is_image_extension("tiff"@),
        is_image_extension("webp"@),
        is_image_extension("264"@),
        is_image_extension("3g2"@),
        is_image_extension("3gp"@),
        is_image_extension("amv"@),
        is_image_extension("asf"@),
        is_image_extension("avi"@),
        is_image_extension("cine"@),
        is_image_extension("drc"@),
        is_image_extension("f4a"@),
        is_image_extension("f4b"@),
        is_image_extension("f4p"@),
        is_image_extension("f4v"@),
        is_image_extension("flv"@),
        is_image_extension("gifv"@),
        is_image_extension("m2ts"@),
        is_image_extension("m2v"@),
        is_image_extension("m4p"@),
        is_image_extension("m4v"@),
        is_image_extension("mkv"@),
        is_image_extension("mng"@),
        is_image_extension("mp4"@),
        is_image_extension("mpeg"@),
        is_image_extension("mpg"@),
        is_image_extension("mts"@),
        is_image_extension("mxf"@),
        is_image_extension("nsv"@),
        is_image_extension("ogg"@),
        is_image_extension("qt"@),
        is_image_extension("roq"@),
        is_image_extension("svi"@),
        is_image_extension("vob"@),
        is_image_extension("wmv"@),
        is_image_extension("yuv"@),
{
}

/// A file whose extension is valid UTF-8 and lowercases to one of the
/// accepted formats is moved; one without an extension, or whose extension
/// is not valid UTF-8, is not.
pub proof fn lemma_moved_by_lowercase_extension(name: Seq<u8>, lower: Seq<char>)
    ensures
        (file_name_of(name) matches Some(f) && extension_of(f) matches Some(e) && valid_utf8(e)
            && lowercase(decode_utf8(e)) == lower && is_image_extension(lower))
            ==> has_image_extension_spec(name),
        (file_name_of(name) matches Some(f) && extension_of(f) is None) ==> !has_image_extension_spec(name),
        (file_name_of(name) matches Some(f) && extension_of(f) matches Some(e) && !valid_utf8(e))
            ==> !has_image_extension_spec(name),
{
}

/// Whether a lowercase extension is a raw format.
fn is_raw_extension_name(lower: &str) -> (r: bool)
    ensures
        r == is_raw_extension(lower@),
{
    str_eq(lower, "3fr")
        || str_eq(lower, "ari")
        || str_eq(lower, "arw")
        || str_eq(lower, "bay")
        || str_eq(lower, "cap")
        || str_eq(lower, "cr2")
        || str_eq(lower, "cr3")
        || str_eq(lower, "crw")
        || str_eq(lower, "data")
        || str_eq(lower, "dcr")
        || str_eq(lower, "dcs")
        || str_eq(lower, "dng")
        || str_eq(lower, "drf")
        || str_eq(lower, "eip")
        || str_eq(lower, "erf")
        || str_eq(lower, "fff")
        || str_eq(lower, "gpr")
        || str_eq(lower, "iiq")
        || str_eq(lower, "k25")
        || str_eq(lower, "kdc")
        || str_eq(lower, "mdc")
        || str_eq(lower, "mef")
        || str_eq(lower, "mos")
        || str_eq(lower, "mrw")
        || str_eq(lower, "nef")
        || str_eq(lower, "nrw")
        || str_eq(lower, "obm")
        || str_eq(lower, "orf")
        || str_eq(lower, "pef")
        || str_eq(lower, "ptx")
        || str_eq(lower, "pxn")
        || str_eq(lower, "r3d")
        || str_eq(lower, "raf")
        || str_eq(lower, "raw")
        || str_eq(lower, "rw2")
        || str_eq(lower, "rwl")
        || str_eq(lower, "rwz")
        || str_eq(lower, "sr2")
        || str_eq(lower, "srf")
        || str_eq(lower, "srw")
        || str_eq(lower, "x3f")
}

/// Whether a lowercase extension is another image format.
fn is_picture_extension_name(lower: &str) -> (r: bool)
    ensures
        r == is_picture_extension(lower@),
{
    str_eq(lower, "avif")
        || str_eq(lower, "bmp")
        || str_eq(lower, "fpx")
        || str_eq(lower, "gif")
        || str_eq(lower, "heic")
        || str_eq(lower, "heif")
        || str_eq(lower, "j2k")
        || str_eq(lower, "jfif")
        || str_eq(lower, "jif")
        || str_eq(lower, "jp2")
        || str_eq(lower, "jpeg")
        || str_eq(lower, "jpg")
        || str_eq(lower, "jpx")
        || str_eq(lower, "pcd")
        || str_eq(lower, "png")
        || str_eq(lower, "psd")
        || str_eq(lower, "tif")
        || str_eq(lower, "tiff")
        || str_eq(lower, "webp")
}

/// Whether a lowercase extension is a movie format.
fn is_movie_extension_name(lower: &str) -> (r: bool)
    ensures
        r == is_movie_extension(lower@),
{
    str_eq(lower, "264")
        || str_eq(lower, "3g2")
        || str_eq(lower, "3gp")
        || str_eq(lower, "amv")
        || str_eq(lower, "asf")
        || str_eq(lower, "avi")
        || str_eq(lower, "cine")
        || str_eq(lower, "drc")
        || str_eq(lower, "f4a")
        || str_eq(lower, "f4b")
        || str_eq(lower, "f4p")
        || str_eq(lower, "f4v")
        || str_eq(lower, "flv")
        || str_eq(lower, "gifv")
        || str_eq(lower, "m2ts")
        || str_eq(lower, "m2v")
        || str_eq(lower, "m4p")
        || str_eq(lower, "m4v")
        || str_eq(lower, "mkv")
        || str_eq(lower, "mng")
        || str_eq(lower, "mp4")
        || str_eq(lower, "mpeg")
        || str_eq(lower, "mpg")
        || str_eq(lower, "mts")
        || str_eq(lower, "mxf")
        || str_eq(lower, "nsv")
        || str_eq(lower, "ogg")
        || str_eq(lower, "qt")
        || str_eq(lower, "roq")
        || str_eq(lower, "svi")
        || str_eq(lower, "vob")
        || str_eq(lower, "wmv")
        || str_eq(lower, "yuv")
}

/// Whether a lowercase extension is one of the moved formats.
pub fn is_image_extension_name(lower: &str) -> (r: bool)
    ensures
        r == is_image_extension(lower@),
{
    is_raw_extension_name(lower) || is_picture_extension_name(lower) || is_movie_extension_name(lower)
}

/// Whether the file called `name` is an image or movie to move, judged by its
/// extension, compared case-insensitively.
pub fn has_image_extension(name: &[u8]) -> (r: bool)
    ensures
        r == has_image_extension_spec(name@),
{
    match file_name(name) {
        Some(f) => match extension_of_name(f) {
            Some(e) => match utf8_str(e) {
                Some(text) => {
                    let lower = to_lowercase(text);
                    is_image_extension_name(lower.as_str())
                },
                None => false,
            },
            None => false,
        },
        None => false,
    }
}

} // verus!
