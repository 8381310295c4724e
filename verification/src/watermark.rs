use crate::ascii::{
    ascii_lowercase, is_lowercase_word, lemma_ascii_lowercase_idempotent, lemma_lowercase_is_spelling, lowercase_equals,
    spells_ignoring_case,
};
use crate::payload::{
    group_errors, is_valid_payload, lemma_majority_of_repeated, lemma_payload_survives_errors,
    repeat_bits, spec_from_bits, spec_majority_agreement, spec_majority_bits, spec_payload_bits,
    spec_payload_bytes, spec_repeat_bits, PayloadError, WatermarkPayload, PAYLOAD_BITS,
};
use crate::transform::{
    block_fits, block_in_quadrant, blocks_disjoint, candidate_count, keyed_blocks,
    lemma_quadrant_block_fits, spec_keyed_blocks, BlockRef,
};
use vstd::prelude::*;

verus! {

/// How strongly a watermark is embedded: each payload bit is repeated more times, and
/// quantized with a larger step, the stronger the profile.
#[derive(Debug, Clone, Copy, PartialEq, Eq)]
pub enum AlgorithmProfile {
    Fidelity,
    Balanced,
    Strong,
}

/// How often each payload bit is repeated under a profile.
pub open spec fn spec_repetitions(profile: AlgorithmProfile) -> nat {
    match profile {
        AlgorithmProfile::Fidelity => 3,
        AlgorithmProfile::Balanced => 5,
        AlgorithmProfile::Strong => 7,
    }
}

/// The default quantization step of a profile.
pub open spec fn spec_default_strength(profile: AlgorithmProfile) -> nat {
    match profile {
        AlgorithmProfile::Fidelity => 8,
        AlgorithmProfile::Balanced => 14,
        AlgorithmProfile::Strong => 22,
    }
}

/// The name of a profile.
pub open spec fn spec_profile_name(profile: AlgorithmProfile) -> Seq<char> {
    match profile {
        AlgorithmProfile::Fidelity => seq!['f', 'i', 'd', 'e', 'l', 'i', 't', 'y'],
        AlgorithmProfile::Balanced => seq!['b', 'a', 'l', 'a', 'n', 'c', 'e', 'd'],
        AlgorithmProfile::Strong => seq!['s', 't', 'r', 'o', 'n', 'g'],
    }
}

impl AlgorithmProfile {
    /// How often each payload bit is repeated.
    pub fn repetitions(self) -> (r: usize)
        ensures
            r == spec_repetitions(self),
    {
        match self {
            AlgorithmProfile::Fidelity => 3,
            AlgorithmProfile::Balanced => 5,
            AlgorithmProfile::Strong => 7,
        }
    }

    /// The default quantization step, in whole intensity units.
    pub fn default_strength(self) -> (s: u32)
        ensures
            s == spec_default_strength(self),
    {
        match self {
            AlgorithmProfile::Fidelity => 8,
            AlgorithmProfile::Balanced => 14,
            AlgorithmProfile::Strong => 22,
        }
    }

    /// The profiles in the order in which extraction tries them.
    pub fn all() -> (profiles: [AlgorithmProfile; 3])
        ensures
            profiles@ == seq![AlgorithmProfile::Balanced, AlgorithmProfile::Strong, AlgorithmProfile::Fidelity],
    {
        let profiles = [AlgorithmProfile::Balanced, AlgorithmProfile::Strong, AlgorithmProfile::Fidelity];
        assert(profiles@ =~= seq![AlgorithmProfile::Balanced, AlgorithmProfile::Strong, AlgorithmProfile::Fidelity]);
        profiles
    }

    /// The profile's name, as reports and the evidence store write it.
    pub fn name(self) -> (name: &'static str)
        ensures
            name@ == spec_profile_name(self),
    {
        match self {
            AlgorithmProfile::Fidelity => {
                proof {
                    reveal_strlit("fidelity");
                    assert("fidelity"@ =~= spec_profile_name(self));
                }
                "fidelity"
            },
            AlgorithmProfile::Balanced => {
                proof {
                    reveal_strlit("balanced");
                    assert("balanced"@ =~= spec_profile_name(self));
                }
                "balanced"
            },
            AlgorithmProfile::Strong => {
                proof {
                    reveal_strlit("strong");
                    assert("strong"@ =~= spec_profile_name(self));
                }
                "strong"
            },
        }
    }
}

/// The file format of watermarked output.
#[derive(Debug, Clone, Copy, PartialEq, Eq)]
pub enum OutputFormat {
    /// Keep the input's format.
    Preserve,
    Jpeg,
    Png,
    Webp,
}

/// `jpg`.
pub open spec fn ext_jpg() -> Seq<char> {
    seq!['j', 'p', 'g']
}

/// `jpeg`.
pub open spec fn ext_jpeg() -> Seq<char> {
    seq!['j', 'p', 'e', 'g']
}

/// `png`.
pub open spec fn ext_png() -> Seq<char> {
    seq!['p', 'n', 'g']
}

/// `webp`.
pub open spec fn ext_webp() -> Seq<char> {
    seq!['w', 'e', 'b', 'p']
}

/// The extension of the output file, given the input file's extension if it has one.
pub open spec fn spec_output_extension(format: OutputFormat, input_extension: Option<Seq<char>>) -> Seq<char> {
    match format {
        OutputFormat::Preserve => match input_extension {
            Some(ext) => {
                let lower = ascii_lowercase(ext);
                if lower == ext_jpg() || lower == ext_jpeg() {
                    ext_jpg()
                } else if lower == ext_webp() {
                    ext_webp()
                } else {
                    ext_png()
                }
            },
            None => ext_png(),
        },
        OutputFormat::Jpeg => ext_jpg(),
        OutputFormat::Png => ext_png(),
        OutputFormat::Webp => ext_webp(),
    }
}

/// The output extension depends on the input extension only through its ASCII lowercase.
pub proof fn lemma_output_extension_ignores_case(format: OutputFormat, input_extension: Seq<char>)
    ensures
        spec_output_extension(format, Some(input_extension)) == spec_output_extension(
            format,
            Some(ascii_lowercase(input_extension)),
        ),
{
    lemma_ascii_lowercase_idempotent(input_extension);
}

/// `Preserve` writes `jpg` for exactly the inputs that spell `jpg` or `jpeg` in any mix of
/// ASCII cases, `webp` for exactly those that spell `webp`, and `png` for every other input
/// and for a file without an extension; the other formats ignore the input.
pub proof fn lemma_output_extension_choices(format: OutputFormat, input_extension: Option<Seq<char>>)
    ensures
        format == OutputFormat::Jpeg ==> spec_output_extension(format, input_extension) == seq!['j', 'p', 'g'],
        format == OutputFormat::Png ==> spec_output_extension(format, input_extension) == seq!['p', 'n', 'g'],
        format == OutputFormat::Webp ==> spec_output_extension(format, input_extension) == seq![
            'w',
            'e',
            'b',
            'p',
        ],
        format == OutputFormat::Preserve && input_extension is None ==> spec_output_extension(
            format,
            input_extension,
        ) == seq!['p', 'n', 'g'],
        format == OutputFormat::Preserve && input_extension is Some ==> {
            let s = input_extension->Some_0;
            let jpeg_like = spells_ignoring_case(s, seq!['j', 'p', 'g']) || spells_ignoring_case(
                s,
                seq!['j', 'p', 'e', 'g'],
            );
            let webp_like = spells_ignoring_case(s, seq!['w', 'e', 'b', 'p']);
            &&& jpeg_like ==> spec_output_extension(format, input_extension) == seq!['j', 'p', 'g']
            &&& webp_like ==> spec_output_extension(format, input_extension) == seq!['w', 'e', 'b', 'p']
            &&& !jpeg_like && !webp_like ==> spec_output_extension(format, input_extension) == seq![
                'p',
                'n',
                'g',
            ]
        },
{
    assert(ext_jpg() =~= seq!['j', 'p', 'g']);
    assert(ext_jpeg() =~= seq!['j', 'p', 'e', 'g']);
    assert(ext_png() =~= seq!['p', 'n', 'g']);
    assert(ext_webp() =~= seq!['w', 'e', 'b', 'p']);
    if let Some(s) = input_extension {
        assert(is_lowercase_word(ext_jpg()));
        assert(is_lowercase_word(ext_jpeg()));
        assert(is_lowercase_word(ext_webp()));
        lemma_lowercase_is_spelling(s, ext_jpg());
        lemma_lowercase_is_spelling(s, ext_jpeg());
        lemma_lowercase_is_spelling(s, ext_webp());
    }
}

/// The view of an optional string.
pub open spec fn opt_view(s: Option<&str>) -> Option<Seq<char>> {
    match s {
        Some(s) => Some(s@),
        None => None,
    }
}

impl OutputFormat {
    /// The extension of the output file: `Preserve` keeps JPEG (as `jpg`) and WebP inputs
    /// and writes everything else, and files without an extension, as PNG.
    pub fn extension(self, input_extension: Option<&str>) -> (ext: &'static str)
        ensures
            ext@ == spec_output_extension(self, opt_view(input_extension)),
    {
        proof {
            reveal_strlit("jpg");
            reveal_strlit("jpeg");
            reveal_strlit("png");
            reveal_strlit("webp");
            assert("jpg"@ =~= ext_jpg());
            assert("jpeg"@ =~= ext_jpeg());
            assert("png"@ =~= ext_png());
            assert("webp"@ =~= ext_webp());
        }
        match self {
            OutputFormat::Preserve => match input_extension {
                Some(ext) => {
                    if lowercase_equals(ext, "jpg") || lowercase_equals(ext, "jpeg") {
                        "jpg"
                    } else if lowercase_equals(ext, "webp") {
                        "webp"
                    } else {
                        "png"
                    }
                },
                None => "png",
            },
            OutputFormat::Jpeg => "jpg",
            OutputFormat::Png => "png",
            OutputFormat::Webp => "webp",
        }
    }
}

/// Outcome of the payload check after extraction.
#[derive(Debug, Clone, Copy, PartialEq, Eq)]
pub enum EccStatus {
    /// The checksum passed and every bit group agreed fully.
    Valid,
    /// The checksum passed after majority voting outvoted some bits.
    Corrected,
    /// No payload passed the checksum.
    Failed,
}


/// Smallest side, in pixels, of the even part of an image that can carry a watermark.
pub const MIN_TRANSFORM_SIDE: usize = 128;

/// The largest even number not above `value`.
pub fn even_floor(value: usize) -> (even: usize)
    ensures
        even == value - value % 2,
{
    value - (value % 2)
}

/// Why an image cannot carry, or be searched for, a watermark.
#[derive(Debug, Clone, Copy, PartialEq, Eq)]
pub enum LayoutError {
    /// The even part of the image is narrower or lower than [`MIN_TRANSFORM_SIDE`].
    TooSmall,
    /// The image has `capacity` blocks but the repeated payload needs `required`.
    InsufficientCapacity { capacity: usize, required: usize },
}

/// Where the payload bits go in an image: the size of the transformed plane
/// (the even part of the image), and the blocks in the order the bits fill them.
pub open spec fn spec_plan_blocks(width: u32, height: u32, key: Seq<u8>, profile: AlgorithmProfile) -> Result<
    (usize, usize, Seq<BlockRef>),
    LayoutError,
> {
    let tw = width - width % 2;
    let th = height - height % 2;
    if tw < MIN_TRANSFORM_SIDE || th < MIN_TRANSFORM_SIDE {
        Err(LayoutError::TooSmall)
    } else {
        let required = PAYLOAD_BITS * spec_repetitions(profile);
        let capacity = candidate_count(tw, th);
        if capacity < required {
            Err(LayoutError::InsufficientCapacity { capacity: capacity as usize, required: required as usize })
        } else {
            Ok((tw as usize, th as usize, spec_keyed_blocks(tw, th, key).take(required as int)))
        }
    }
}

/// The bits that embedding writes for a payload: its bit encoding, each bit repeated.
pub open spec fn spec_embedded_bits(payload: (u8, Seq<u8>, u32), profile: AlgorithmProfile) -> Seq<bool> {
    spec_repeat_bits(spec_payload_bits(payload), spec_repetitions(profile))
}

/// The blocks lie in their detail quadrants and no two overlap.
pub open spec fn blocks_well_placed(blocks: Seq<BlockRef>, width: int, height: int) -> bool {
    &&& forall|i: int| 0 <= i < blocks.len() ==> block_in_quadrant(#[trigger] blocks[i], width, height)
    &&& forall|i: int, j: int|
        0 <= i < blocks.len() && 0 <= j < blocks.len() && i != j ==> blocks_disjoint(
            #[trigger] blocks[i],
            #[trigger] blocks[j],
        )
}

/// What embedding writes into an image: bit `i` goes into block `i` of the
/// `width` x `height` transformed plane.
pub struct EmbedPlan {
    pub width: usize,
    pub height: usize,
    pub bits: Vec<bool>,
    pub blocks: Vec<BlockRef>,
}

/// Where extraction reads an image: block `i` of the `width` x `height` transformed plane
/// holds bit `i`.
pub struct ExtractPlan {
    pub width: usize,
    pub height: usize,
    pub blocks: Vec<BlockRef>,
}

fn plan_blocks(width: u32, height: u32, key: &[u8], profile: AlgorithmProfile) -> (res: Result<
    (usize, usize, Vec<BlockRef>),
    LayoutError,
>)
    ensures
        match res {
            Ok((tw, th, blocks)) => spec_plan_blocks(width, height, key@, profile) == Ok::<
                (usize, usize, Seq<BlockRef>),
                LayoutError,
            >((tw, th, blocks@)) && blocks_well_placed(blocks@, tw as int, th as int)
                && blocks@.len() == PAYLOAD_BITS * spec_repetitions(profile),
            Err(e) => spec_plan_blocks(width, height, key@, profile) == Err::<
                (usize, usize, Seq<BlockRef>),
                LayoutError,
            >(e),
        },
{
    let transform_width = even_floor(width as usize);
    let transform_height = even_floor(height as usize);
    if transform_width < MIN_TRANSFORM_SIDE || transform_height < MIN_TRANSFORM_SIDE {
        return Err(LayoutError::TooSmall);
    }
    let required = PAYLOAD_BITS * profile.repetitions();
    let mut blocks = keyed_blocks(transform_width, transform_height, key);
    if blocks.len() < required {
        return Err(LayoutError::InsufficientCapacity { capacity: blocks.len(), required });
    }
    let ghost all = blocks@;
    blocks.truncate(required);
    proof {
        assert(blocks@ =~= all.take(required as int));
        assert forall|i: int, j: int|
            0 <= i < blocks@.len() && 0 <= j < blocks@.len() && i != j implies blocks_disjoint(
            #[trigger] blocks@[i],
            #[trigger] blocks@[j],
        ) by {
            assert(blocks@[i] == all[i] && blocks@[j] == all[j]);
        }
        assert forall|i: int| 0 <= i < blocks@.len() implies block_in_quadrant(
            #[trigger] blocks@[i],
            transform_width as int,
            transform_height as int,
        ) by {
            assert(blocks@[i] == all[i]);
        }
    }
    Ok((transform_width, transform_height, blocks))
}

/// Plans embedding a payload into a `width` x `height` image under a key and a profile:
/// the payload's bits, each repeated as the profile says, paired in order with the first
/// keyed blocks of the image's even part. Fails when that part is smaller than
/// [`MIN_TRANSFORM_SIDE`] on a side, or has fewer blocks than bits.
pub fn embedding_plan(
    width: u32,
    height: u32,
    payload: &WatermarkPayload,
    key: &[u8],
    profile: AlgorithmProfile,
) -> (res: Result<EmbedPlan, LayoutError>)
    ensures
        match res {
            Ok(plan) => {
                &&& spec_plan_blocks(width, height, key@, profile) == Ok::<
                    (usize, usize, Seq<BlockRef>),
                    LayoutError,
                >((plan.width, plan.height, plan.blocks@))
                &&& plan.bits@ == spec_embedded_bits(payload@, profile)
                &&& plan.bits@.len() == plan.blocks@.len()
                &&& blocks_well_placed(plan.blocks@, plan.width as int, plan.height as int)
            },
            Err(e) => spec_plan_blocks(width, height, key@, profile) == Err::<
                (usize, usize, Seq<BlockRef>),
                LayoutError,
            >(e),
        },
{
    let (transform_width, transform_height, blocks) = plan_blocks(width, height, key, profile)?;
    let payload_bits = payload.to_bits();
    let bits = repeat_bits(payload_bits.as_slice(), profile.repetitions());
    assert(crate::payload::spec_payload_bytes(payload@).len() == 21);
    Ok(EmbedPlan { width: transform_width, height: transform_height, bits, blocks })
}

/// Plans extracting a watermark from a `width` x `height` image under a key and a profile:
/// the keyed blocks that embedding under the same key and profile writes, in the same
/// order. Fails exactly when embedding would.
pub fn extraction_plan(width: u32, height: u32, key: &[u8], profile: AlgorithmProfile) -> (res: Result<
    ExtractPlan,
    LayoutError,
>)
    ensures
        match res {
            Ok(plan) => {
                &&& spec_plan_blocks(width, height, key@, profile) == Ok::<
                    (usize, usize, Seq<BlockRef>),
                    LayoutError,
                >((plan.width, plan.height, plan.blocks@))
                &&& plan.blocks@.len() == PAYLOAD_BITS * spec_repetitions(profile)
                &&& blocks_well_placed(plan.blocks@, plan.width as int, plan.height as int)
            },
            Err(e) => spec_plan_blocks(width, height, key@, profile) == Err::<
                (usize, usize, Seq<BlockRef>),
                LayoutError,
            >(e),
        },
{
    let (transform_width, transform_height, blocks) = plan_blocks(width, height, key, profile)?;
    Ok(ExtractPlan { width: transform_width, height: transform_height, blocks })
}


/// Every profile repeats each bit an odd number of times, so that no group vote ties, and
/// a stronger profile both repeats more and quantizes with a larger step.
pub proof fn lemma_profile_parameters()
    ensures
        forall|p: AlgorithmProfile| #[trigger] spec_repetitions(p) % 2 == 1,
        spec_repetitions(AlgorithmProfile::Fidelity) < spec_repetitions(AlgorithmProfile::Balanced),
        spec_repetitions(AlgorithmProfile::Balanced) < spec_repetitions(AlgorithmProfile::Strong),
        spec_default_strength(AlgorithmProfile::Fidelity) < spec_default_strength(AlgorithmProfile::Balanced),
        spec_default_strength(AlgorithmProfile::Balanced) < spec_default_strength(AlgorithmProfile::Strong),
{
}

/// Blind decoding: reading back the embedded bits of a valid payload with at most
/// `(r - 1) / 2` wrong bits in every group of `r` repetitions, majority decoding and bit
/// decoding give the payload back; read back without error, every group agrees fully.
pub proof fn lemma_extraction_recovers_payload(
    payload: (u8, Seq<u8>, u32),
    profile: AlgorithmProfile,
    read: Seq<bool>,
)
    requires
        is_valid_payload(payload),
        read.len() == PAYLOAD_BITS * spec_repetitions(profile),
        forall|g: int|
            0 <= g < PAYLOAD_BITS ==> #[trigger] group_errors(
                read,
                spec_payload_bits(payload),
                spec_repetitions(profile),
                g,
            ) <= (spec_repetitions(profile) - 1) / 2,
    ensures
        spec_from_bits(spec_majority_bits(read, spec_repetitions(profile))) == Ok::<
            (u8, Seq<u8>, u32),
            PayloadError,
        >(payload),
        read == spec_embedded_bits(payload, profile) ==> spec_majority_agreement(
            read,
            spec_repetitions(profile),
        ) == Seq::new(PAYLOAD_BITS as nat, |g: int| spec_repetitions(profile) as usize),
{
    let r = spec_repetitions(profile);
    assert forall|g: int| 0 <= g < PAYLOAD_BITS implies 2 * #[trigger] group_errors(
        read,
        spec_payload_bits(payload),
        r,
        g,
    ) < r by {
        assert(group_errors(read, spec_payload_bits(payload), r, g) <= (r - 1) / 2);
    }
    lemma_payload_survives_errors(payload, read, r);
    assert(spec_payload_bytes(payload).len() == 21);
    lemma_majority_of_repeated(spec_payload_bits(payload), r);
}


/// Well-placed blocks all fit in the `width` x `height` plane, so reading and writing any
/// of them stays inside the plane.
pub proof fn lemma_well_placed_blocks_fit(blocks: Seq<BlockRef>, width: int, height: int)
    requires
        width >= 0,
        height >= 0,
        blocks_well_placed(blocks, width, height),
    ensures
        forall|k: int| 0 <= k < blocks.len() ==> block_fits(width, width * height, #[trigger] blocks[k]),
{
    assert forall|k: int| 0 <= k < blocks.len() implies block_fits(width, width * height, #[trigger] blocks[k]) by {
        lemma_quadrant_block_fits(blocks[k], width, height);
    }
}


/// Whether extraction detected the expected identifier: the verdict of verifying a file
/// against a known watermark.
pub fn identifier_matches(detected: Option<[u8; 16]>, expected: [u8; 16]) -> (matches: bool)
    ensures
        matches == (detected == Some(expected)),
        matches == (detected matches Some(id) && id@ == expected@),
{
    match detected {
        None => false,
        Some(id) => {
            let mut k: usize = 0;
            while k < 16
                invariant
                    k <= 16,
                    detected == Some(id),
                    forall|j: int| 0 <= j < k ==> id[j] == expected[j],
                decreases 16 - k,
            {
                if id[k] != expected[k] {
                    assert(id[k as int] != expected[k as int]);
                    return false;
                }
                k = k + 1;
            }
            proof {
                broadcast use vstd::array::axiom_array_ext_equal;
                assert(id =~= expected);
            }
            true
        },
    }
}

} // verus!
