use watermark_core::payload::{repeat_bits, PAYLOAD_BITS};
use watermark_core::transform::{candidate_blocks, keyed_blocks, read_block, write_block, BlockRef, Subband};
use watermark_core::{
    embedding_plan, even_floor, extraction_plan, AlgorithmProfile, LayoutError, WatermarkPayload,
};

fn key_bytes(text: &str) -> Vec<u8> {
    text.as_bytes().to_vec()
}

fn overlaps(a: &BlockRef, b: &BlockRef) -> bool {
    !(a.x + 8 <= b.x || b.x + 8 <= a.x || a.y + 8 <= b.y || b.y + 8 <= a.y)
}

#[test]
fn candidate_blocks_cover_both_detail_quadrants() {
    let blocks = candidate_blocks(32, 32);
    assert_eq!(blocks.len(), 8);
    assert_eq!((blocks[0].subband, blocks[0].x, blocks[0].y), (Subband::Horizontal, 16, 0));
    assert_eq!((blocks[1].subband, blocks[1].x, blocks[1].y), (Subband::Vertical, 0, 16));
    assert_eq!((blocks[2].subband, blocks[2].x, blocks[2].y), (Subband::Horizontal, 24, 0));
    assert_eq!((blocks[7].subband, blocks[7].x, blocks[7].y), (Subband::Vertical, 8, 24));
    assert!(candidate_blocks(15, 300).is_empty());
    assert_eq!(candidate_blocks(384, 384).len(), 1152);
    assert_eq!(candidate_blocks(40, 70).len(), 2 * 2 * 4);
}

#[test]
fn keyed_blocks_permute_the_candidates() {
    let key = key_bytes("test-key");
    let keyed = keyed_blocks(384, 384, &key);
    let candidates = candidate_blocks(384, 384);
    assert_eq!(keyed.len(), candidates.len());
    let mut sorted_keyed: Vec<(usize, usize)> = keyed.iter().map(|b| (b.x, b.y)).collect();
    let mut sorted_candidates: Vec<(usize, usize)> = candidates.iter().map(|b| (b.x, b.y)).collect();
    sorted_keyed.sort();
    sorted_candidates.sort();
    assert_eq!(sorted_keyed, sorted_candidates);
    assert_ne!(keyed, candidates);
}

#[test]
fn keyed_blocks_depend_on_key_and_size_only() {
    let a = keyed_blocks(256, 256, &key_bytes("alpha"));
    let b = keyed_blocks(256, 256, &key_bytes("alpha"));
    let c = keyed_blocks(256, 256, &key_bytes("beta"));
    let d = keyed_blocks(256, 258, &key_bytes("alpha"));
    assert_eq!(a, b);
    assert_ne!(a, c);
    assert_ne!(a[..a.len()], d[..a.len()]);
}

#[test]
fn keyed_blocks_do_not_overlap() {
    let keyed = keyed_blocks(160, 192, &key_bytes("k"));
    for i in 0..keyed.len() {
        assert!(keyed[i].x + 8 <= 160 && keyed[i].y + 8 <= 192);
        for j in (i + 1)..keyed.len() {
            assert!(!overlaps(&keyed[i], &keyed[j]));
        }
    }
}

#[test]
fn block_write_then_read() {
    let width = 32;
    let mut plane: Vec<i32> = (0..(32 * 32)).collect();
    let at = BlockRef { subband: Subband::Horizontal, x: 16, y: 8 };
    let block = read_block(&plane, width, at);
    assert_eq!(block[0][0], 8 * 32 + 16);
    assert_eq!(block[7][7], 15 * 32 + 23);
    let mut replacement = [[0_i32; 8]; 8];
    for y in 0..8 {
        for x in 0..8 {
            replacement[y][x] = -((y * 8 + x) as i32);
        }
    }
    write_block(&mut plane, width, at, replacement);
    assert_eq!(read_block(&plane, width, at), replacement);
    assert_eq!(plane[8 * 32 + 15], 8 * 32 + 15);
    assert_eq!(plane[8 * 32 + 24], 8 * 32 + 24);
    assert_eq!(plane[16 * 32 + 16], 16 * 32 + 16);
}

#[test]
fn even_floor_drops_odd_pixel() {
    assert_eq!(even_floor(0), 0);
    assert_eq!(even_floor(129), 128);
    assert_eq!(even_floor(384), 384);
}

#[test]
fn embedding_and_extraction_plans_agree() {
    let key = key_bytes("test-key");
    let payload = WatermarkPayload::new([9u8; 16]);
    let embed = embedding_plan(384, 385, &payload, &key, AlgorithmProfile::Balanced).unwrap();
    let extract = extraction_plan(385, 384, &key, AlgorithmProfile::Balanced);
    assert!(extract.is_ok());
    let extract = extraction_plan(384, 385, &key, AlgorithmProfile::Balanced).unwrap();
    assert_eq!((embed.width, embed.height), (384, 384));
    assert_eq!(embed.bits.len(), PAYLOAD_BITS * 5);
    assert_eq!(embed.bits, repeat_bits(&payload.to_bits(), 5));
    assert_eq!(embed.blocks, extract.blocks);
    assert_eq!(embed.blocks[..], keyed_blocks(384, 384, &key)[..840]);
}

#[test]
fn small_images_are_refused() {
    let key = key_bytes("k");
    let payload = WatermarkPayload::new([1u8; 16]);
    assert_eq!(
        embedding_plan(127, 500, &payload, &key, AlgorithmProfile::Fidelity).err(),
        Some(LayoutError::TooSmall)
    );
    assert_eq!(
        extraction_plan(500, 129, &key, AlgorithmProfile::Fidelity).err(),
        Some(LayoutError::InsufficientCapacity { capacity: 496, required: 504 })
    );
    assert_eq!(extraction_plan(500, 127, &key, AlgorithmProfile::Fidelity).err(), Some(LayoutError::TooSmall));
}

#[test]
fn capacity_shortfall_is_reported() {
    let key = key_bytes("k");
    let payload = WatermarkPayload::new([1u8; 16]);
    assert_eq!(
        embedding_plan(128, 128, &payload, &key, AlgorithmProfile::Balanced).err(),
        Some(LayoutError::InsufficientCapacity { capacity: 128, required: 840 })
    );
    assert_eq!(
        extraction_plan(384, 384, &key, AlgorithmProfile::Strong).err(),
        Some(LayoutError::InsufficientCapacity { capacity: 1152, required: 1176 })
    );
    assert!(extraction_plan(400, 400, &key, AlgorithmProfile::Strong).is_ok());
}
