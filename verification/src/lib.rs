//! Blind image watermarking: payload framing, bit coding, keyed block selection, the
//! integer decisions of the embedding pipeline, and the names the evidence store uses.

pub mod ascii;
pub mod batch;
pub mod evidence;
pub mod export;
pub mod hash;
pub mod payload;
pub mod transform;
pub mod watermark;

pub use batch::{batch_status, is_supported_image};
pub use evidence::parse_profile;
pub use export::{EvidenceExportFormat, UnsupportedExportFormat};
pub use hash::{average_hash, sha256_hex, RgbaRaster};
pub use payload::{PayloadError, WatermarkPayload};
pub use watermark::{
    embedding_plan, even_floor, extraction_plan, identifier_matches, AlgorithmProfile, EccStatus, EmbedPlan,
    ExtractPlan, LayoutError, OutputFormat,
};
