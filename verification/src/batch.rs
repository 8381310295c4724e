use crate::ascii::{
    ascii_lowercase, is_lowercase_word, lemma_ascii_lowercase_idempotent, lemma_lowercase_is_spelling, lowercase_equals,
    spells_ignoring_case,
};
use crate::watermark::{ext_jpg, ext_png, ext_webp, opt_view, spec_output_extension, OutputFormat};
use vstd::prelude::*;

verus! {

/// The file extensions, in lowercase, of the images that batches take.
pub open spec fn supported_extensions() -> Seq<Seq<char>> {
    seq![
        seq!['j', 'p', 'g'],
        seq!['j', 'p', 'e', 'g'],
        seq!['p', 'n', 'g'],
        seq!['w', 'e', 'b', 'p'],
        seq!['t', 'i', 'f'],
        seq!['t', 'i', 'f', 'f'],
    ]
}

/// A file is taken as an image when its extension, in ASCII lowercase, is supported.
pub open spec fn spec_is_supported_image(extension: Option<Seq<char>>) -> bool {
    match extension {
        Some(ext) => supported_extensions().contains(ascii_lowercase(ext)),
        None => false,
    }
}

/// Whether a file with this extension (if it has one) is an image that batches take.
pub fn is_supported_image(extension: Option<&str>) -> (supported: bool)
    ensures
        supported == spec_is_supported_image(opt_view(extension)),
{
    match extension {
        None => false,
        Some(ext) => {
            proof {
                reveal_strlit("jpg");
                reveal_strlit("jpeg");
                reveal_strlit("png");
                reveal_strlit("webp");
                reveal_strlit("tif");
                reveal_strlit("tiff");
                assert("jpg"@ =~= supported_extensions()[0]);
                assert("jpeg"@ =~= supported_extensions()[1]);
                assert("png"@ =~= supported_extensions()[2]);
                assert("webp"@ =~= supported_extensions()[3]);
                assert("tif"@ =~= supported_extensions()[4]);
                assert("tiff"@ =~= supported_extensions()[5]);
            }
            let found = lowercase_equals(ext, "jpg") || lowercase_equals(ext, "jpeg") || lowercase_equals(ext, "png")
                || lowercase_equals(ext, "webp") || lowercase_equals(ext, "tif") || lowercase_equals(ext, "tiff");
            proof {
                let lower = ascii_lowercase(ext@);
                if supported_extensions().contains(lower) {
                    let k = choose|k: int| 0 <= k < 6 && supported_extensions()[k] == lower;
                    assert(found);
                }
            }
            found
        },
    }
}

/// Whether a file is taken as an image depends on its extension only through the
/// extension's ASCII lowercase.
pub proof fn lemma_supported_image_ignores_case(extension: Seq<char>)
    ensures
        spec_is_supported_image(Some(extension)) == spec_is_supported_image(Some(ascii_lowercase(extension))),
{
    lemma_ascii_lowercase_idempotent(extension);
}

/// A file is taken as an image exactly when its extension spells `jpg`, `jpeg`, `png`,
/// `webp`, `tif` or `tiff` in any mix of ASCII cases; a file without an extension is not.
pub proof fn lemma_supported_image_spellings(extension: Option<Seq<char>>)
    ensures
        extension is None ==> !spec_is_supported_image(extension),
        extension is Some ==> spec_is_supported_image(extension) == {
            let s = extension->Some_0;
            ||| spells_ignoring_case(s, seq!['j', 'p', 'g'])
            ||| spells_ignoring_case(s, seq!['j', 'p', 'e', 'g'])
            ||| spells_ignoring_case(s, seq!['p', 'n', 'g'])
            ||| spells_ignoring_case(s, seq!['w', 'e', 'b', 'p'])
            ||| spells_ignoring_case(s, seq!['t', 'i', 'f'])
            ||| spells_ignoring_case(s, seq!['t', 'i', 'f', 'f'])
        },
{
    if let Some(s) = extension {
        let words = supported_extensions();
        assert forall|k: int| 0 <= k < 6 implies is_lowercase_word(#[trigger] words[k]) by {}
        assert(words[0] =~= seq!['j', 'p', 'g']);
        assert(words[1] =~= seq!['j', 'p', 'e', 'g']);
        assert(words[2] =~= seq!['p', 'n', 'g']);
        assert(words[3] =~= seq!['w', 'e', 'b', 'p']);
        assert(words[4] =~= seq!['t', 'i', 'f']);
        assert(words[5] =~= seq!['t', 'i', 'f', 'f']);
        lemma_lowercase_is_spelling(s, words[0]);
        lemma_lowercase_is_spelling(s, words[1]);
        lemma_lowercase_is_spelling(s, words[2]);
        lemma_lowercase_is_spelling(s, words[3]);
        lemma_lowercase_is_spelling(s, words[4]);
        lemma_lowercase_is_spelling(s, words[5]);
        let lower = ascii_lowercase(s);
        if words.contains(lower) {
            let k = choose|k: int| 0 <= k < words.len() && words[k] == lower;
            assert(0 <= k < 6);
        }
        if spells_ignoring_case(s, words[0]) {
            assert(words[0] == lower);
        }
        if spells_ignoring_case(s, words[1]) {
            assert(words[1] == lower);
        }
        if spells_ignoring_case(s, words[2]) {
            assert(words[2] == lower);
        }
        if spells_ignoring_case(s, words[3]) {
            assert(words[3] == lower);
        }
        if spells_ignoring_case(s, words[4]) {
            assert(words[4] == lower);
        }
        if spells_ignoring_case(s, words[5]) {
            assert(words[5] == lower);
        }
    }
}

/// `completed`.
pub open spec fn status_completed() -> Seq<char> {
    seq!['c', 'o', 'm', 'p', 'l', 'e', 't', 'e', 'd']
}

/// `completed-with-errors`.
pub open spec fn status_completed_with_errors() -> Seq<char> {
    status_completed() + seq!['-', 'w', 'i', 't', 'h', '-', 'e', 'r', 'r', 'o', 'r', 's']
}

/// The status a finished batch is recorded with: `completed` when no file failed,
/// `completed-with-errors` otherwise.
pub fn batch_status(failed: usize) -> (status: &'static str)
    ensures
        status@ == if failed == 0 {
            status_completed()
        } else {
            status_completed_with_errors()
        },
{
    proof {
        reveal_strlit("completed");
        reveal_strlit("completed-with-errors");
        assert("completed"@ =~= status_completed());
        assert("completed-with-errors"@ =~= status_completed_with_errors());
    }
    if failed == 0 {
        "completed"
    } else {
        "completed-with-errors"
    }
}


proof fn lemma_lowercase_of_lowercase(s: Seq<char>)
    requires
        forall|i: int| 0 <= i < s.len() ==> 'a' <= #[trigger] s[i] <= 'z',
    ensures
        ascii_lowercase(s) == s,
{
    assert(ascii_lowercase(s) =~= s);
}

/// Every output file gets an extension that batches take as an image, so a batch's
/// watermarked output can be fed back to a batch.
pub proof fn lemma_output_extension_supported(format: OutputFormat, input_extension: Option<Seq<char>>)
    ensures
        spec_is_supported_image(Some(spec_output_extension(format, input_extension))),
{
    let ext = spec_output_extension(format, input_extension);
    lemma_lowercase_of_lowercase(ext_jpg());
    lemma_lowercase_of_lowercase(ext_png());
    lemma_lowercase_of_lowercase(ext_webp());
    if ext == ext_jpg() {
        assert(supported_extensions()[0] == ext_jpg());
    } else if ext == ext_png() {
        assert(supported_extensions()[2] == ext_png());
    } else {
        assert(supported_extensions()[3] == ext_webp());
    }
}

} // verus!
