//! The category contract: which files a scan may consider, by extension and
//! by the categories that the owner selected.
use vstd::prelude::*;
use crate::model::SelectionType;
use crate::path::{FilePath, PartKey, extension, extension_of};
use crate::text::owned;

verus! {

/// ASCII lower-casing of one byte.
pub open spec fn lower_byte(b: u8) -> u8 {
    if 65 <= b <= 90 {
        (b + 32) as u8
    } else {
        b
    }
}

/// ASCII lower-casing of a byte string (other bytes unchanged).
pub open spec fn lowered(s: Seq<u8>) -> Seq<u8> {
    s.map_values(|b: u8| lower_byte(b))
}

/// The bytes of an ASCII word.
pub open spec fn word(w: Seq<char>) -> Seq<u8> {
    w.map_values(|c: char| c as u8)
}

pub open spec fn is_video_extension(e: Seq<u8>) -> bool {
    ||| e == word(seq!['m', 'p', '4'])
    ||| e == word(seq!['m', 'k', 'v'])
    ||| e == word(seq!['m', 'o', 'v'])
    ||| e == word(seq!['a', 'v', 'i'])
    ||| e == word(seq!['w', 'm', 'v'])
    ||| e == word(seq!['w', 'e', 'b', 'm'])
    ||| e == word(seq!['m', '4', 'v'])
}

pub open spec fn is_audio_extension(e: Seq<u8>) -> bool {
    e == word(seq!['m', 'p', '3'])
}

pub open spec fn is_document_extension(e: Seq<u8>) -> bool {
    ||| e == word(seq!['d', 'o', 'c', 'x'])
    ||| e == word(seq!['p', 'd', 'f'])
}

pub open spec fn is_image_extension(e: Seq<u8>) -> bool {
    ||| e == word(seq!['j', 'p', 'g'])
    ||| e == word(seq!['j', 'p', 'e', 'g'])
    ||| e == word(seq!['p', 'n', 'g'])
    ||| e == word(seq!['g', 'i', 'f'])
    ||| e == word(seq!['w', 'e', 'b', 'p'])
    ||| e == word(seq!['b', 'm', 'p'])
    ||| e == word(seq!['t', 'i', 'f'])
    ||| e == word(seq!['t', 'i', 'f', 'f'])
    ||| e == word(seq!['h', 'e', 'i', 'c'])
}

/// The category that an extension belongs to, compared without regard to
/// ASCII case. (A text match after lossy decoding is the same test: an
/// extension that is not valid UTF-8 holds a byte above 127 and matches no word.)
pub open spec fn extension_category(ext: Seq<u8>) -> Option<SelectionType> {
    let e = lowered(ext);
    if is_video_extension(e) {
        Some(SelectionType::Video)
    } else if is_audio_extension(e) {
        Some(SelectionType::Audio)
    } else if is_document_extension(e) {
        Some(SelectionType::Document)
    } else if is_image_extension(e) {
        Some(SelectionType::Image)
    } else {
        None
    }
}

/// The media kind recorded for a category.
pub open spec fn kind_name(t: SelectionType) -> Seq<char> {
    match t {
        SelectionType::Video => "video"@,
        SelectionType::Audio => "audio"@,
        SelectionType::Document => "document"@,
        SelectionType::Image => "image"@,
    }
}

/// The media kind of a file, when its category is among the selected ones.
pub open spec fn classified(path: Seq<PartKey>, selected: Seq<SelectionType>) -> Option<Seq<char>> {
    match extension_of(path) {
        Some(ext) => match extension_category(ext) {
            Some(t) => if selected.contains(t) {
                Some(kind_name(t))
            } else {
                None
            },
            None => None,
        },
        None => None,
    }
}

fn lower_bytes(s: &Vec<u8>) -> (r: Vec<u8>)
    ensures
        r@ == lowered(s@),
{
    let mut r: Vec<u8> = Vec::new();
    let mut i: usize = 0;
    while i < s.len()
        invariant
            i <= s@.len(),
            r@ == lowered(s@.take(i as int)),
        decreases s@.len() - i,
    {
        let b = s[i];
        let l: u8 = if 65 <= b && b <= 90 { b + 32 } else { b };
        r.push(l);
        i = i + 1;
        assert(r@ =~= lowered(s@.take(i as int)));
    }
    assert(s@.take(s@.len() as int) =~= s@);
    r
}

fn is_word(e: &Vec<u8>, w: &[u8]) -> (r: bool)
    ensures
        r == (e@ == w@),
{
    if e.len() != w.len() {
        return false;
    }
    let mut i: usize = 0;
    while i < e.len()
        invariant
            e@.len() == w@.len(),
            i <= e@.len(),
            forall|k: int| 0 <= k < i ==> e@[k] == w@[k],
        decreases e@.len() - i,
    {
        if e[i] != w[i] {
            return false;
        }
        i = i + 1;
    }
    assert(e@ =~= w@);
    true
}

fn category_of(ext: &Vec<u8>) -> (r: Option<SelectionType>)
    ensures
        r == extension_category(ext@),
{
    let e = lower_bytes(ext);
    let mp4: [u8; 3] = ['m' as u8, 'p' as u8, '4' as u8];
    let mkv: [u8; 3] = ['m' as u8, 'k' as u8, 'v' as u8];
    let mov: [u8; 3] = ['m' as u8, 'o' as u8, 'v' as u8];
    let avi: [u8; 3] = ['a' as u8, 'v' as u8, 'i' as u8];
    let wmv: [u8; 3] = ['w' as u8, 'm' as u8, 'v' as u8];
    let webm: [u8; 4] = ['w' as u8, 'e' as u8, 'b' as u8, 'm' as u8];
    let m4v: [u8; 3] = ['m' as u8, '4' as u8, 'v' as u8];
    let mp3: [u8; 3] = ['m' as u8, 'p' as u8, '3' as u8];
    let docx: [u8; 4] = ['d' as u8, 'o' as u8, 'c' as u8, 'x' as u8];
    let pdf: [u8; 3] = ['p' as u8, 'd' as u8, 'f' as u8];
    let jpg: [u8; 3] = ['j' as u8, 'p' as u8, 'g' as u8];
    let jpeg: [u8; 4] = ['j' as u8, 'p' as u8, 'e' as u8, 'g' as u8];
    let png: [u8; 3] = ['p' as u8, 'n' as u8, 'g' as u8];
    let gif: [u8; 3] = ['g' as u8, 'i' as u8, 'f' as u8];
    let webp: [u8; 4] = ['w' as u8, 'e' as u8, 'b' as u8, 'p' as u8];
    let bmp: [u8; 3] = ['b' as u8, 'm' as u8, 'p' as u8];
    let tif: [u8; 3] = ['t' as u8, 'i' as u8, 'f' as u8];
    let tiff: [u8; 4] = ['t' as u8, 'i' as u8, 'f' as u8, 'f' as u8];
    let heic: [u8; 4] = ['h' as u8, 'e' as u8, 'i' as u8, 'c' as u8];
    assert(mp4@ =~= word(seq!['m', 'p', '4']));
    assert(mkv@ =~= word(seq!['m', 'k', 'v']));
    assert(mov@ =~= word(seq!['m', 'o', 'v']));
    assert(avi@ =~= word(seq!['a', 'v', 'i']));
    assert(wmv@ =~= word(seq!['w', 'm', 'v']));
    assert(webm@ =~= word(seq!['w', 'e', 'b', 'm']));
    assert(m4v@ =~= word(seq!['m', '4', 'v']));
    assert(mp3@ =~= word(seq!['m', 'p', '3']));
    assert(docx@ =~= word(seq!['d', 'o', 'c', 'x']));
    assert(pdf@ =~= word(seq!['p', 'd', 'f']));
    assert(jpg@ =~= word(seq!['j', 'p', 'g']));
    assert(jpeg@ =~= word(seq!['j', 'p', 'e', 'g']));
    assert(png@ =~= word(seq!['p', 'n', 'g']));
    assert(gif@ =~= word(seq!['g', 'i', 'f']));
    assert(webp@ =~= word(seq!['w', 'e', 'b', 'p']));
    assert(bmp@ =~= word(seq!['b', 'm', 'p']));
    assert(tif@ =~= word(seq!['t', 'i', 'f']));
    assert(tiff@ =~= word(seq!['t', 'i', 'f', 'f']));
    assert(heic@ =~= word(seq!['h', 'e', 'i', 'c']));
    if is_word(&e, &mp4) || is_word(&e, &mkv) || is_word(&e, &mov) || is_word(&e, &avi)
        || is_word(&e, &wmv) || is_word(&e, &webm) || is_word(&e, &m4v) {
        Some(SelectionType::Video)
    } else if is_word(&e, &mp3) {
        Some(SelectionType::Audio)
    } else if is_word(&e, &docx) || is_word(&e, &pdf) {
        Some(SelectionType::Document)
    } else if is_word(&e, &jpg) || is_word(&e, &jpeg) || is_word(&e, &png) || is_word(&e, &gif)
        || is_word(&e, &webp) || is_word(&e, &bmp) || is_word(&e, &tif) || is_word(&e, &tiff)
        || is_word(&e, &heic) {
        Some(SelectionType::Image)
    } else {
        None
    }
}

/// Whether a category is among the selected ones.
pub fn is_selected(selected: &Vec<SelectionType>, t: SelectionType) -> (r: bool)
    ensures
        r == selected@.contains(t),
{
    let mut i: usize = 0;
    while i < selected.len()
        invariant
            i <= selected@.len(),
            forall|k: int| 0 <= k < i ==> selected@[k] != t,
        decreases selected@.len() - i,
    {
        if selected[i] == t {
            assert(selected@[i as int] == t);
            return true;
        }
        i = i + 1;
    }
    false
}

fn kind_text(t: SelectionType) -> (s: String)
    ensures
        s@ == kind_name(t),
{
    match t {
        SelectionType::Video => owned("video"),
        SelectionType::Audio => owned("audio"),
        SelectionType::Document => owned("document"),
        SelectionType::Image => owned("image"),
    }
}

/// The media kind of a file whose category the owner selected; `None` for
/// a file without a recognised extension or of an unselected category.
pub fn classify(path: &FilePath, selected: &Vec<SelectionType>) -> (r: Option<String>)
    ensures
        r matches Some(k) ==> classified(path@, selected@) == Some(k@),
        r is None ==> classified(path@, selected@) is None,
{
    match extension(path) {
        Some(ext) => match category_of(&ext) {
            Some(t) => if is_selected(selected, t) {
                Some(kind_text(t))
            } else {
                None
            },
            None => None,
        },
        None => None,
    }
}

/// A file is given a media kind only when the category of its extension is
/// among the selected ones; the kind is that category's.
pub proof fn lemma_classified_is_selected(path: Seq<PartKey>, selected: Seq<SelectionType>)
    requires
        classified(path, selected) is Some,
    ensures
        extension_of(path) is Some,
        extension_category(extension_of(path)->0) is Some,
        selected.contains(extension_category(extension_of(path)->0)->0),
        classified(path, selected)->0 == kind_name(extension_category(extension_of(path)->0)->0),
{
}

/// Classification does not see the case of ASCII letters in an extension:
/// two paths whose extensions agree once lower-cased are classified alike.
pub proof fn lemma_classify_ignores_case(p1: Seq<PartKey>, p2: Seq<PartKey>, selected: Seq<SelectionType>)
    requires
        extension_of(p1) is Some <==> extension_of(p2) is Some,
        extension_of(p1) is Some ==> lowered(extension_of(p1)->0) == lowered(extension_of(p2)->0),
    ensures
        classified(p1, selected) == classified(p2, selected),
{
}

/// The listed extensions and their categories, in any ASCII case: mp4, mkv,
/// mov, avi, wmv, webm and m4v are videos; mp3 is audio; docx and pdf are
/// documents; jpg, jpeg, png, gif, webp, bmp, tif, tiff and heic are images;
/// and each category's media kind is its lower-case name.
pub proof fn lemma_listed_extensions()
    ensures
        forall|ext: Seq<u8>|
            #![trigger extension_category(ext)]
            lowered(ext) == seq![109u8, 112u8, 52u8] ==> extension_category(ext) == Some(SelectionType::Video),
        forall|ext: Seq<u8>|
            #![trigger extension_category(ext)]
            lowered(ext) == seq![109u8, 107u8, 118u8] ==> extension_category(ext) == Some(SelectionType::Video),
        forall|ext: Seq<u8>|
            #![trigger extension_category(ext)]
            lowered(ext) == seq![109u8, 111u8, 118u8] ==> extension_category(ext) == Some(SelectionType::Video),
        forall|ext: Seq<u8>|
            #![trigger extension_category(ext)]
            lowered(ext) == seq![97u8, 118u8, 105u8] ==> extension_category(ext) == Some(SelectionType::Video),
        forall|ext: Seq<u8>|
            #![trigger extension_category(ext)]
            lowered(ext) == seq![119u8, 109u8, 118u8] ==> extension_category(ext) == Some(SelectionType::Video),
        forall|ext: Seq<u8>|
            #![trigger extension_category(ext)]
            lowered(ext) == seq![119u8, 101u8, 98u8, 109u8] ==> extension_category(ext) == Some(SelectionType::Video),
        forall|ext: Seq<u8>|
            #![trigger extension_category(ext)]
            lowered(ext) == seq![109u8, 52u8, 118u8] ==> extension_category(ext) == Some(SelectionType::Video),
        forall|ext: Seq<u8>|
            #![trigger extension_category(ext)]
            lowered(ext) == seq![109u8, 112u8, 51u8] ==> extension_category(ext) == Some(SelectionType::Audio),
        forall|ext: Seq<u8>|
            #![trigger extension_category(ext)]
            lowered(ext) == seq![100u8, 111u8, 99u8, 120u8] ==> extension_category(ext) == Some(SelectionType::Document),
        forall|ext: Seq<u8>|
            #![trigger extension_category(ext)]
            lowered(ext) == seq![112u8, 100u8, 102u8] ==> extension_category(ext) == Some(SelectionType::Document),
        forall|ext: Seq<u8>|
            #![trigger extension_category(ext)]
            lowered(ext) == seq![106u8, 112u8, 103u8] ==> extension_category(ext) == Some(SelectionType::Image),
        forall|ext: Seq<u8>|
            #![trigger extension_category(ext)]
            lowered(ext) == seq![106u8, 112u8, 101u8, 103u8] ==> extension_category(ext) == Some(SelectionType::Image),
        forall|ext: Seq<u8>|
            #![trigger extension_category(ext)]
            lowered(ext) == seq![112u8, 110u8, 103u8] ==> extension_category(ext) == Some(SelectionType::Image),
        forall|ext: Seq<u8>|
            #![trigger extension_category(ext)]
            lowered(ext) == seq![103u8, 105u8, 102u8] ==> extension_category(ext) == Some(SelectionType::Image),
        forall|ext: Seq<u8>|
            #![trigger extension_category(ext)]
            lowered(ext) == seq![119u8, 101u8, 98u8, 112u8] ==> extension_category(ext) == Some(SelectionType::Image),
        forall|ext: Seq<u8>|
            #![trigger extension_category(ext)]
            lowered(ext) == seq![98u8, 109u8, 112u8] ==> extension_category(ext) == Some(SelectionType::Image),
        forall|ext: Seq<u8>|
            #![trigger extension_category(ext)]
            lowered(ext) == seq![116u8, 105u8, 102u8] ==> extension_category(ext) == Some(SelectionType::Image),
        forall|ext: Seq<u8>|
            #![trigger extension_category(ext)]
            lowered(ext) == seq![116u8, 105u8, 102u8, 102u8] ==> extension_category(ext) == Some(SelectionType::Image),
        forall|ext: Seq<u8>|
            #![trigger extension_category(ext)]
            lowered(ext) == seq![104u8, 101u8, 105u8, 99u8] ==> extension_category(ext) == Some(SelectionType::Image),
        kind_name(SelectionType::Video) == "video"@,
        kind_name(SelectionType::Audio) == "audio"@,
        kind_name(SelectionType::Document) == "document"@,
        kind_name(SelectionType::Image) == "image"@,
{
    assert(word(seq!['m', 'p', '4']) =~= seq![109u8, 112u8, 52u8]);
    assert(word(seq!['m', 'k', 'v']) =~= seq![109u8, 107u8, 118u8]);
    assert(word(seq!['m', 'o', 'v']) =~= seq![109u8, 111u8, 118u8]);
    assert(word(seq!['a', 'v', 'i']) =~= seq![97u8, 118u8, 105u8]);
    assert(word(seq!['w', 'm', 'v']) =~= seq![119u8, 109u8, 118u8]);
    assert(word(seq!['w', 'e', 'b', 'm']) =~= seq![119u8, 101u8, 98u8, 109u8]);
    assert(word(seq!['m', '4', 'v']) =~= seq![109u8, 52u8, 118u8]);
    assert(word(seq!['m', 'p', '3']) =~= seq![109u8, 112u8, 51u8]);
    assert(word(seq!['d', 'o', 'c', 'x']) =~= seq![100u8, 111u8, 99u8, 120u8]);
    assert(word(seq!['p', 'd', 'f']) =~= seq![112u8, 100u8, 102u8]);
    assert(word(seq!['j', 'p', 'g']) =~= seq![106u8, 112u8, 103u8]);
    assert(word(seq!['j', 'p', 'e', 'g']) =~= seq![106u8, 112u8, 101u8, 103u8]);
    assert(word(seq!['p', 'n', 'g']) =~= seq![112u8, 110u8, 103u8]);
    assert(word(seq!['g', 'i', 'f']) =~= seq![103u8, 105u8, 102u8]);
    assert(word(seq!['w', 'e', 'b', 'p']) =~= seq![119u8, 101u8, 98u8, 112u8]);
    assert(word(seq!['b', 'm', 'p']) =~= seq![98u8, 109u8, 112u8]);
    assert(word(seq!['t', 'i', 'f']) =~= seq![116u8, 105u8, 102u8]);
    assert(word(seq!['t', 'i', 'f', 'f']) =~= seq![116u8, 105u8, 102u8, 102u8]);
    assert(word(seq!['h', 'e', 'i', 'c']) =~= seq![104u8, 101u8, 105u8, 99u8]);
}

/// ASCII lower-casing turns each upper-case letter into its lower-case
/// letter and leaves every other byte as it is.
pub proof fn lemma_lower_byte(b: u8)
    ensures
        65 <= b <= 90 ==> lower_byte(b) == b + 32,
        !(65 <= b <= 90) ==> lower_byte(b) == b,
        lowered(seq![b]) == seq![lower_byte(b)],
{
    assert(lowered(seq![b]) =~= seq![lower_byte(b)]);
}

/// A file whose extension is one of the listed ones, in any ASCII case, is
/// given that category's media kind exactly when the category is selected.
pub proof fn lemma_classify_listed(path: Seq<PartKey>, selected: Seq<SelectionType>, t: SelectionType)
    requires
        extension_of(path) is Some,
        extension_category(extension_of(path)->0) == Some(t),
    ensures
        selected.contains(t) ==> classified(path, selected) == Some(kind_name(t)),
        !selected.contains(t) ==> classified(path, selected) is None,
{
}

} // verus!
