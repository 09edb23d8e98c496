//! A binary container that groups fixed-length byte blocks into
//! contiguous runs, one run per block size, behind a small fixed-layout
//! header so that readers can locate any block arithmetically.

mod codec;
mod collect;
mod error;

pub use collect::Block;
pub use collect::Collector;
pub use collect::DEFAULT_MAX_SIZE;
pub use collect::Shelf;
pub use collect::ShelfV;
pub use collect::base_offset;
pub use collect::collect_all;
pub use collect::lemma_collect_all_step;
pub use collect::data_bytes;
pub use collect::descs_bytes;
pub use collect::lemma_data_bytes_len;
pub use collect::lemma_descs_bytes_at;
pub use collect::lemma_descs_bytes_len;
pub use collect::lemma_pressed_layout;
pub use collect::lemma_shelf_add_at;
pub use collect::lemma_total_bulk_prefix;
pub use collect::lemma_total_bulk_take_le;
pub use collect::lemma_uniform_data_len;
pub use collect::press_fits;
pub use collect::press_header;
pub use collect::run_data_offset;
pub use collect::run_desc_of;
pub use collect::run_slot;
pub use collect::shelf_add;
pub use collect::shelves_wf;
pub use collect::spec_pressed;
pub use collect::total_bulk;

pub use codec::FILE_MAGIC;
pub use codec::FORMAT_VERSION;
pub use codec::HEADER_SIZE;
pub use codec::Header;
pub use codec::RUN_DESC_SIZE;
pub use codec::RunDesc;
pub use codec::lemma_flipped_magic_rejected;
pub use codec::lemma_header_at_of_bytes;
pub use codec::lemma_header_round_trip;
pub use codec::lemma_run_desc_at_of_bytes;
pub use codec::lemma_run_desc_round_trip;
pub use codec::spec_header_at;
pub use codec::spec_run_desc_at;
pub use error::Error;
