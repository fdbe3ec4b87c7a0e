use vstd::prelude::*;

verus! {

/// The media types of the file type that file_type detects in `bytes`, in
/// its order.
pub uninterp spec fn detected_media_types(bytes: Seq<u8>) -> Seq<Seq<char>>;

/// The media types of the file type that `file_type::FileType::from_bytes`
/// detects in `bytes` (its `media_types()`, each as a `String`). Trusted:
/// the result is a function of the bytes alone, named
/// `detected_media_types`; nothing more is stated of the detection.
#[verifier::external_body]
fn mediaTypesOf(bytes: &[u8]) -> (res: Vec<String>)
    ensures
        res.deep_view() == detected_media_types(bytes@),
{
    file_type::FileType::from_bytes(bytes).media_types().iter().map(|m| m.to_string()).collect()
}

/// The media type of PNG images, `image/png`.
pub open spec fn png_media_type() -> Seq<char> {
    seq!['i', 'm', 'a', 'g', 'e', '/', 'p', 'n', 'g']
}

/// Whether a media type is that of PNG images.
pub fn isPngMediaType(mediaType: &String) -> (r: bool)
    ensures
        r == (mediaType@ == png_media_type()),
{
    let png = String::from_str("image/png");
    proof {
        reveal_strlit("image/png");
    }
    assert(png@ =~= png_media_type());
    *mediaType == png
}

/// The first media type of the file type detected in the bytes; `None`
/// where that file type has no media type.
pub fn firstMediaType(fileBytes: &Vec<u8>) -> (res: Option<String>)
    ensures
        match res {
            Some(m) => detected_media_types(fileBytes@).len() > 0 && m@ == detected_media_types(fileBytes@)[0],
            None => detected_media_types(fileBytes@).len() == 0,
        },
{
    let types = mediaTypesOf(fileBytes.as_slice());
    if types.len() == 0 {
        None
    } else {
        assert(types.deep_view()[0] == types@[0]@);
        Some(types[0].clone())
    }
}

/// Whether the file is a PNG image by its detected file type: `Some(true)`
/// when the first media type of that file type is `image/png`,
/// `Some(false)` for another one, `None` when the file type has no media
/// type.
pub fn isPNG(fileBytes: &Vec<u8>) -> (res: Option<bool>)
    ensures
        res == (if detected_media_types(fileBytes@).len() == 0 {
            None
        } else {
            Some(detected_media_types(fileBytes@)[0] == png_media_type())
        }),
{
    match firstMediaType(fileBytes) {
        Some(m) => Some(isPngMediaType(&m)),
        None => None,
    }
}

} // verus!
