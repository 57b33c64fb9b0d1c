//! Covering-array archive toolchain: a compact binary codec for covering
//! arrays, an archive container with a trailing index, and the selection
//! logic that picks the smallest stored array compatible with a request
//! and reconstructs its rows.

pub mod acts;
pub mod archive;
pub mod bits;
pub mod bzip;
pub mod caspec;
pub mod codec;
pub mod compress;
pub mod ctwedge;
pub mod intern;
pub mod select;
pub mod text;
pub mod wire;

pub use acts::try_parse_acts;
pub use archive::build_archive;
pub use archive::ccmeta_bytes;
pub use archive::find_index;
pub use archive::index_magic;
pub use archive::parse_ccmeta;
pub use archive::parse_index;
pub use archive::ArchiveEntry;
pub use bits::generate_bit_sizes;
pub use caspec::build_request;
pub use caspec::CA2Version;
pub use caspec::CASpec;
pub use caspec::RequestedCA;
pub use caspec::CA2_DEFAULT_VERSION;
pub use caspec::MAGIC_BYTES_CA2_PRE;
pub use caspec::VS_TERMINATOR;
pub use codec::encode_basic;
pub use codec::encode_u16_stream;
pub use codec::CompressedCA;
pub use compress::compress_ca;
pub use compress::CompressError;
pub use compress::CompressorOutput;
pub use ctwedge::try_parse_ctwedge;
pub use intern::generate_column_map;
pub use intern::intern_rows;
pub use intern::sort_desc;
pub use select::decode_payload;
pub use select::decode_rows;
pub use select::generate_reorder_map;
pub use select::parse_request;
pub use select::project_row;
pub use select::render_csv_line;
pub use select::select_best;
pub use select::AvailableCA;
